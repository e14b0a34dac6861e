//! Finite fields `F_q`, `q = p^r`: elements are polynomials over `F_p` of degree below `r`,
//! lowest coefficient first, reduced modulo a monic irreducible polynomial of degree `r`.
use vstd::prelude::*;

use vstd::arithmetic::power::pow;

use crate::util::ntheory::{factorize, is_sorted, lemma_gcd_prime, mod_inverse, seq_product, spec_is_prime};
use crate::zoo::cyclic::is_factorization;

verus! {

/// The coefficients with trailing zeros removed, keeping at least one coefficient.
pub open spec fn trimmed(s: Seq<u32>) -> Seq<u32>
    decreases s.len(),
{
    if s.len() > 1 && s.last() == 0 {
        trimmed(s.drop_last())
    } else {
        s
    }
}

/// Trimming keeps a prefix: the length does not grow, the kept coefficients are unchanged, and
/// the last one is non-zero unless at most one is left.
pub proof fn lemma_trimmed(s: Seq<u32>)
    ensures
        trimmed(s).len() <= s.len(),
        s.len() >= 1 ==> trimmed(s).len() >= 1,
        trimmed(s) == s.take(trimmed(s).len() as int),
        trimmed(s).len() > 1 ==> trimmed(s).last() != 0,
        forall|i: int| trimmed(s).len() <= i < s.len() ==> s[i] == 0,
    decreases s.len(),
{
    if s.len() > 1 && s.last() == 0 {
        lemma_trimmed(s.drop_last());
        let t = trimmed(s.drop_last());
        assert(s.drop_last().take(t.len() as int) =~= s.take(t.len() as int));
        assert forall|i: int| trimmed(s).len() <= i < s.len() implies s[i] == 0 by {
            if i < s.len() - 1 {
                assert(s[i] == s.drop_last()[i]);
            }
        }
    } else {
        assert(s.take(s.len() as int) =~= s);
    }
}

/// Removes trailing zero coefficients, keeping at least one.
fn trim(poly: &mut Vec<u32>)
    ensures
        final(poly)@ == trimmed(old(poly)@),
{
    while poly.len() > 1 && poly[poly.len() - 1] == 0
        invariant
            trimmed(poly@) == trimmed(old(poly)@),
        decreases poly@.len(),
    {
        poly.pop();
    }
}

/// The `k`-th convolution sum over the first `i` coefficients of `a`.
pub open spec fn conv_sum(a: Seq<u32>, b: Seq<u32>, k: int, i: nat) -> int
    decreases i,
{
    if i == 0 {
        0
    } else {
        conv_sum(a, b, k, (i - 1) as nat) + if 0 <= k - (i - 1) < b.len() {
            a[i - 1] * b[k - (i - 1)]
        } else {
            0
        }
    }
}

/// The product of two polynomials over `F_p`, trimmed; `[0]` when a factor has no coefficients.
pub open spec fn pmul(a: Seq<u32>, b: Seq<u32>, p: nat) -> Seq<u32> {
    if a.len() == 0 || b.len() == 0 {
        seq![0u32]
    } else {
        trimmed(
            Seq::new(
                (a.len() + b.len() - 1) as nat,
                |k: int| (conv_sum(a, b, k, a.len()) % (p as int)) as u32,
            ),
        )
    }
}

/// The product of two polynomials over `F_p`.
fn poly_mul(a: &[u32], b: &[u32], p: u32) -> (r: Vec<u32>)
    requires
        p > 0,
        a@.len() + b@.len() <= usize::MAX,
    ensures
        r@ == pmul(a@, b@, p as nat),
{
    if a.len() == 0 || b.len() == 0 {
        return vec![0];
    }
    let len = a.len() + b.len() - 1;
    let mut res: Vec<u32> = Vec::new();
    let mut z: usize = 0;
    while z < len
        invariant
            z <= len,
            res@.len() == z,
            forall|k: int| 0 <= k < z ==> #[trigger] res@[k] == 0,
        decreases len - z,
    {
        res.push(0);
        z = z + 1;
    }
    let ghost pp = p as int;
    proof {
        assert forall|k: int| 0 <= k < len implies #[trigger] res@[k] == conv_sum(a@, b@, k, 0) % pp by {
            vstd::arithmetic::div_mod::lemma_small_mod(0, pp as nat);
        }
    }
    let mut i: usize = 0;
    while i < a.len()
        invariant
            i <= a@.len(),
            len == a@.len() + b@.len() - 1,
            a@.len() >= 1,
            b@.len() >= 1,
            p > 0,
            pp == p as int,
            res@.len() == len,
            forall|k: int| 0 <= k < len ==> #[trigger] res@[k] == conv_sum(a@, b@, k, i as nat) % pp,
        decreases a@.len() - i,
    {
        let mut j: usize = 0;
        while j < b.len()
            invariant
                i < a@.len(),
                j <= b@.len(),
                len == a@.len() + b@.len() - 1,
                p > 0,
                pp == p as int,
                res@.len() == len,
                forall|k: int|
                    0 <= k < len ==> #[trigger] res@[k] == if i <= k < i + j {
                        conv_sum(a@, b@, k, (i + 1) as nat) % pp
                    } else {
                        conv_sum(a@, b@, k, i as nat) % pp
                    },
            decreases b@.len() - j,
        {
            let va = a[i] as u64;
            let vb = b[j] as u64;
            let cur = res[i + j] as u64;
            proof {
                assert(va * vb <= 0xffff_fffe_0000_0001u64) by (nonlinear_arith)
                    requires
                        va <= 0xffff_ffffu64,
                        vb <= 0xffff_ffffu64,
                ;
                let k = (i + j) as int;
                vstd::arithmetic::div_mod::lemma_add_mod_noop(conv_sum(a@, b@, k, i as nat), va * vb, pp);
                vstd::arithmetic::div_mod::lemma_mod_twice(va * vb, pp);
                assert(conv_sum(a@, b@, k, (i + 1) as nat) == conv_sum(a@, b@, k, i as nat) + va * vb);
                assert((cur + va * vb) % pp == conv_sum(a@, b@, k, (i + 1) as nat) % pp) by {
                    vstd::arithmetic::div_mod::lemma_add_mod_noop(cur as int, va * vb, pp);
                    vstd::arithmetic::div_mod::lemma_mod_twice(conv_sum(a@, b@, k, i as nat), pp);
                }
            }
            res.set(i + j, ((cur + va * vb) % (p as u64)) as u32);
            j = j + 1;
        }
        proof {
            assert forall|k: int| 0 <= k < len implies #[trigger] res@[k] == conv_sum(a@, b@, k, (i + 1) as nat)
                % pp by {
                if !(i <= k < i + b@.len()) {
                    assert(conv_sum(a@, b@, k, (i + 1) as nat) == conv_sum(a@, b@, k, i as nat));
                }
            }
        }
        i = i + 1;
    }
    proof {
        assert(res@ =~= Seq::new(len as nat, |k: int| (conv_sum(a@, b@, k, a@.len()) % pp) as u32));
    }
    trim(&mut res);
    res
}


/// `x` is the inverse of `c` modulo `p`.
pub open spec fn is_inverse_mod(c: int, x: int, p: int) -> bool {
    0 <= x < p && (c * x) % p == 1
}

/// The inverse of `c` modulo `p`, or `1` when there is none.
pub open spec fn lead_inverse(c: int, p: int) -> int {
    if exists|x: int| is_inverse_mod(c, x, p) {
        choose|x: int| is_inverse_mod(c, x, p)
    } else {
        1
    }
}

/// Inverses modulo `p` are unique.
pub(crate) proof fn lemma_inverse_unique(c: int, x: int, y: int, p: int)
    requires
        p > 0,
        is_inverse_mod(c, x, p),
        is_inverse_mod(c, y, p),
    ensures
        x == y,
{
    let k1 = (c * x) / p;
    let k2 = (c * y) / p;
    vstd::arithmetic::div_mod::lemma_fundamental_div_mod(c * x, p);
    vstd::arithmetic::div_mod::lemma_fundamental_div_mod(c * y, p);
    assert(x * (c * y) == y * (c * x)) by (nonlinear_arith);
    assert(x - y == p * (y * k1 - x * k2)) by (nonlinear_arith)
        requires
            c * x == p * k1 + 1,
            c * y == p * k2 + 1,
            x * (c * y) == y * (c * x),
    ;
    let m = y * k1 - x * k2;
    assert(m == 0) by (nonlinear_arith)
        requires
            x - y == p * m,
            0 <= x < p,
            0 <= y < p,
    ;
}

/// One step of long division by `b`: subtract `factor * x^shift * b` with the factor that
/// cancels the leading coefficient, then drop the leading coefficient.
pub open spec fn div_step(a: Seq<u32>, b: Seq<u32>, p: int, inv: int) -> Seq<u32> {
    let lead = a.last();
    let shift = a.len() - b.len();
    let factor = (lead * inv) % p;
    if lead == 0 {
        a.drop_last()
    } else {
        Seq::new(
            (a.len() - 1) as nat,
            |t: int|
                if shift <= t {
                    ((a[t] + p - (b[t - shift] * factor) % p) % p) as u32
                } else {
                    a[t]
                },
        )
    }
}

/// Long division steps while the dividend is at least as long as the divisor.
pub open spec fn div_loop(a: Seq<u32>, b: Seq<u32>, p: int, inv: int) -> Seq<u32>
    decreases a.len(),
{
    if a.len() < b.len() || b.len() == 0 {
        a
    } else {
        div_loop(div_step(a, b, p, inv), b, p, inv)
    }
}

/// The remainder of `a` modulo `b` over `F_p` by long division, trimmed; `[0]` when nothing
/// is left.
pub open spec fn prem(a: Seq<u32>, b: Seq<u32>, p: nat) -> Seq<u32> {
    if a.len() < b.len() {
        trimmed(a)
    } else {
        let r = trimmed(div_loop(a, b, p as int, lead_inverse((b.last() % (p as u32)) as int, p as int)));
        if r.len() == 0 {
            seq![0u32]
        } else {
            r
        }
    }
}

/// The division loop ends one coefficient short of the divisor and keeps reduced coefficients.
proof fn lemma_div_loop(a: Seq<u32>, b: Seq<u32>, p: int, inv: int)
    requires
        b.len() >= 1,
        p > 0,
    ensures
        a.len() >= b.len() ==> div_loop(a, b, p, inv).len() == b.len() - 1,
        a.len() < b.len() ==> div_loop(a, b, p, inv) == a,
        (forall|t: int| 0 <= t < a.len() ==> a[t] < p) ==> forall|t: int|
            0 <= t < div_loop(a, b, p, inv).len() ==> #[trigger] div_loop(a, b, p, inv)[t] < p,
    decreases a.len(),
{
    if a.len() >= b.len() {
        let d = div_step(a, b, p, inv);
        if forall|t: int| 0 <= t < a.len() ==> a[t] < p {
            assert forall|t: int| 0 <= t < d.len() implies d[t] < p by {}
        }
        lemma_div_loop(d, b, p, inv);
    }
}

/// The remainder is short, trimmed, and keeps coefficients reduced.
pub proof fn lemma_prem(a: Seq<u32>, b: Seq<u32>, p: nat)
    requires
        b.len() >= 1,
        p > 0,
    ensures
        a.len() >= b.len() ==> 1 <= prem(a, b, p).len() <= if b.len() >= 2 {
            b.len() - 1
        } else {
            1
        },
        a.len() < b.len() ==> prem(a, b, p).len() <= a.len(),
        b.len() == 1 && a.len() >= 1 ==> prem(a, b, p) == seq![0u32],
        prem(a, b, p).len() > 1 ==> prem(a, b, p).last() != 0,
        (forall|t: int| 0 <= t < a.len() ==> a[t] < p) && p > 0 ==> forall|t: int|
            0 <= t < prem(a, b, p).len() ==> #[trigger] prem(a, b, p)[t] < p,
{
    let inv = lead_inverse((b.last() % (p as u32)) as int, p as int);
    lemma_div_loop(a, b, p as int, inv);
    lemma_trimmed(a);
    lemma_trimmed(div_loop(a, b, p as int, inv));
    if forall|t: int| 0 <= t < a.len() ==> a[t] < p {
        let r = prem(a, b, p);
        if a.len() < b.len() {
            assert forall|t: int| 0 <= t < r.len() implies #[trigger] r[t] < p by {
                assert(r[t] == a[t]);
            }
        } else {
            let d = div_loop(a, b, p as int, inv);
            assert forall|t: int| 0 <= t < r.len() implies #[trigger] r[t] < p by {
                if trimmed(d).len() > 0 {
                    assert(r[t] == d[t]);
                }
            }
        }
    }
}

/// The remainder of `a` modulo `b` over `F_p`.
fn poly_rem(a: Vec<u32>, b: &[u32], p: u32) -> (r: Vec<u32>)
    requires
        spec_is_prime(p as int),
        b@.len() >= 1,
        b@.last() % p != 0,
    ensures
        r@ == prem(a@, b@, p as nat),
{
    let mut a = a;
    let ghost a0 = a@;
    let ghost pp = p as int;
    if a.len() < b.len() {
        trim(&mut a);
        return a;
    }
    let c = b[b.len() - 1] % p;
    proof {
        lemma_gcd_prime(p as nat, c as nat);
        assert(c % p == c) by (nonlinear_arith)
            requires
                c < p,
        ;
    }
    let inv_lead = match mod_inverse(c, p) {
        Some(x) => x,
        None => 1,
    };
    let ghost inv = inv_lead as int;
    proof {
        assert(is_inverse_mod(c as int, inv, pp));
        let ch = choose|x: int| is_inverse_mod(c as int, x, pp);
        lemma_inverse_unique(c as int, inv, ch, pp);
        assert(inv == lead_inverse(c as int, pp));
    }
    while a.len() >= b.len()
        invariant
            b@.len() >= 1,
            p > 1,
            pp == p as int,
            inv == inv_lead as int,
            div_loop(a@, b@, pp, inv) == div_loop(a0, b@, pp, inv),
        decreases a@.len(),
    {
        let ghost before = a@;
        let len = a.len();
        let lead = a[len - 1];
        if lead != 0 {
            proof {
                assert((lead as u64) * (inv_lead as u64) <= 0xffff_fffe_0000_0001u64) by (nonlinear_arith)
                    requires
                        lead <= 0xffff_ffffu32,
                        inv_lead <= 0xffff_ffffu32,
                ;
            }
            let factor = ((lead as u64 * inv_lead as u64) % (p as u64)) as u32;
            let shift = len - b.len();
            let mut i: usize = 0;
            while i < b.len()
                invariant
                    i <= b@.len(),
                    p > 1,
                    pp == p as int,
                    shift == before.len() - b@.len(),
                    len == before.len(),
                    a@.len() == len,
                    factor == (lead * inv) % pp,
                    lead == before.last(),
                    forall|t: int| 0 <= t < len ==> #[trigger] a@[t] == if shift <= t < shift + i {
                        ((before[t] + pp - (b@[t - shift] * factor) % pp) % pp) as u32
                    } else {
                        before[t]
                    },
                decreases b@.len() - i,
            {
                let x = a[shift + i] as u64;
                let y = b[i] as u64;
                proof {
                    assert(y * (factor as u64) <= 0xffff_fffe_0000_0001u64) by (nonlinear_arith)
                        requires
                            y <= 0xffff_ffffu64,
                            factor <= 0xffff_ffffu32,
                    ;
                }
                let sub = (y * factor as u64) % (p as u64);
                a.set(shift + i, ((x + p as u64 - sub) % (p as u64)) as u32);
                i = i + 1;
            }
            a.pop();
            proof {
                assert(a@ =~= div_step(before, b@, pp, inv));
            }
        } else {
            a.pop();
            proof {
                assert(a@ =~= div_step(before, b@, pp, inv));
            }
        }
    }
    proof {
        assert(div_loop(a@, b@, pp, inv) == a@);
    }
    trim(&mut a);
    if a.len() == 0 {
        vec![0]
    } else {
        a
    }
}


/// Square-and-multiply: with `res` the accumulated product and `cur` the current square, the
/// bits of `exp` are consumed from the lowest, every product reduced modulo `m`.
pub open spec fn powmod_loop(res: Seq<u32>, cur: Seq<u32>, exp: nat, m: Seq<u32>, p: nat) -> Seq<u32>
    decreases exp,
{
    if exp == 0 {
        res
    } else {
        let res2 = if exp % 2 == 1 {
            prem(pmul(res, cur, p), m, p)
        } else {
            res
        };
        powmod_loop(res2, prem(pmul(cur, cur, p), m, p), exp / 2, m, p)
    }
}

/// `base^exp` modulo `m` over `F_p`, by square-and-multiply.
pub open spec fn ppow(base: Seq<u32>, exp: nat, m: Seq<u32>, p: nat) -> Seq<u32> {
    powmod_loop(seq![1u32], prem(base, m, p), exp, m, p)
}

/// Raises `base` to the power `exp` modulo `modulus` over `F_p`.
fn poly_powmod(base: &[u32], exp: u64, modulus: &[u32], p: u32) -> (r: Vec<u32>)
    requires
        spec_is_prime(p as int),
        modulus@.len() >= 1,
        modulus@.last() % p != 0,
        base@.len() <= 0x1000_0000,
        modulus@.len() <= 0x1000_0000,
    ensures
        r@ == ppow(base@, exp as nat, modulus@, p as nat),
{
    let ghost bound: nat = if base@.len() >= modulus@.len() { base@.len() } else { modulus@.len() };
    let mut res: Vec<u32> = vec![1];
    let mut cur = poly_rem(copy_coeffs(base), modulus, p);
    proof {
        lemma_prem(base@, modulus@, p as nat);
        assert(res@ =~= seq![1u32]);
    }
    let mut e = exp;
    while e > 0
        invariant
            spec_is_prime(p as int),
            modulus@.len() >= 1,
            modulus@.last() % p != 0,
            bound <= 0x1000_0000,
            modulus@.len() <= bound,
            1 <= res@.len() <= bound,
            cur@.len() <= bound,
            powmod_loop(res@, cur@, e as nat, modulus@, p as nat) == powmod_loop(
                seq![1u32],
                prem(base@, modulus@, p as nat),
                exp as nat,
                modulus@,
                p as nat,
            ),
        decreases e,
    {
        let ghost e0 = e;
        let bit = e & 1;
        proof {
            assert(bit == 1 <==> e % 2 == 1) by (bit_vector)
                requires
                    bit == e & 1,
            ;
        }
        if bit == 1 {
            let prod = poly_mul(&res, &cur, p);
            proof {
                lemma_pmul_len(res@, cur@, p as nat);
                lemma_prem(prod@, modulus@, p as nat);
                lemma_trimmed(prod@);
            }
            res = poly_rem(prod, modulus, p);
        }
        let sq = poly_mul(&cur, &cur, p);
        proof {
            lemma_pmul_len(cur@, cur@, p as nat);
            lemma_prem(sq@, modulus@, p as nat);
        }
        cur = poly_rem(sq, modulus, p);
        e = e >> 1;
        proof {
            assert(e == e0 / 2) by (bit_vector)
                requires
                    e == e0 >> 1,
            ;
        }
    }
    res
}

/// A copy of the coefficients.
fn copy_coeffs(s: &[u32]) -> (v: Vec<u32>)
    ensures
        v@ == s@,
{
    let mut v: Vec<u32> = Vec::new();
    let mut i: usize = 0;
    while i < s.len()
        invariant
            i <= s@.len(),
            v@ == s@.take(i as int),
        decreases s@.len() - i,
    {
        v.push(s[i]);
        i = i + 1;
        assert(v@ =~= s@.take(i as int));
    }
    assert(s@.take(s@.len() as int) =~= s@);
    v
}

/// The product has at most as many coefficients as both factors together, and at least one;
/// its coefficients are reduced.
pub proof fn lemma_pmul_len(a: Seq<u32>, b: Seq<u32>, p: nat)
    requires
        p > 0,
    ensures
        1 <= pmul(a, b, p).len() <= if a.len() + b.len() >= 1 {
            a.len() + b.len()
        } else {
            1
        },
        forall|t: int| 0 <= t < pmul(a, b, p).len() ==> #[trigger] pmul(a, b, p)[t] < p,
{
    if a.len() > 0 && b.len() > 0 {
        let full = Seq::new(
            (a.len() + b.len() - 1) as nat,
            |k: int| (conv_sum(a, b, k, a.len()) % (p as int)) as u32,
        );
        lemma_trimmed(full);
        assert forall|t: int| 0 <= t < pmul(a, b, p).len() implies #[trigger] pmul(a, b, p)[t] < p by {
            assert(pmul(a, b, p)[t] == full[t]);
        }
    }
}


/// The coefficients lie in `0..p`.
pub open spec fn reduced_coeffs(s: Seq<u32>, p: nat) -> bool {
    forall|t: int| 0 <= t < s.len() ==> #[trigger] s[t] < p
}

/// Euclid's algorithm on polynomials over `F_p`, for at most `fuel` steps.
pub open spec fn gcd_fuel(a: Seq<u32>, b: Seq<u32>, p: nat, fuel: nat) -> Seq<u32>
    decreases fuel,
{
    if fuel == 0 || b.len() == 0 || b == seq![0u32] {
        a
    } else {
        gcd_fuel(b, prem(a, b, p), p, (fuel - 1) as nat)
    }
}

/// The greatest common divisor of `a` and `b` over `F_p` as Euclid's algorithm leaves it:
/// the last non-zero remainder (not made monic).
pub open spec fn pgcd(a: Seq<u32>, b: Seq<u32>, p: nat) -> Seq<u32> {
    gcd_fuel(a, b, p, 2 * b.len() + 2)
}

/// The size that every step of Euclid's algorithm decreases.
spec fn euclid_measure(b: Seq<u32>) -> nat {
    2 * b.len() + if b == seq![0u32] {
        0nat
    } else {
        1nat
    }
}

/// The greatest common divisor of two polynomials over `F_p`, by Euclid's algorithm.
fn poly_gcd(a: Vec<u32>, b: Vec<u32>, p: u32) -> (g: Vec<u32>)
    requires
        spec_is_prime(p as int),
        reduced_coeffs(a@, p as nat),
        reduced_coeffs(b@, p as nat),
        b@.len() > 1 ==> b@.last() != 0,
    ensures
        g@ == pgcd(a@, b@, p as nat),
{
    let ghost target = pgcd(a@, b@, p as nat);
    let mut a = a;
    let mut b = b;
    let ghost mut fuel: nat = 2 * b@.len() + 2;
    while !(b.len() == 1 && b[0] == 0) && b.len() != 0
        invariant
            spec_is_prime(p as int),
            reduced_coeffs(a@, p as nat),
            reduced_coeffs(b@, p as nat),
            b@.len() > 1 ==> b@.last() != 0,
            fuel > euclid_measure(b@),
            gcd_fuel(a@, b@, p as nat, fuel) == target,
        decreases euclid_measure(b@),
    {
        proof {
            if b@.len() == 1 {
                assert(b@[0] != 0);
                if b@ == seq![0u32] {
                    assert(b@[0] == 0);
                }
            }
            assert(b@ != seq![0u32]) by {
                if b@ == seq![0u32] {
                    assert(b@.len() == 1 && b@[0] == 0);
                }
            }
            assert(b@.last() < p);
            assert(b@.last() % p == b@.last()) by (nonlinear_arith)
                requires
                    b@.last() < p,
            ;
            lemma_prem(a@, b@, p as nat);
            lemma_trimmed(a@);
        }
        let r = poly_rem(a, &b, p);
        proof {
            if b@.len() == 1 && r@.len() >= 1 {
                assert(r@ == seq![0u32] || r@.len() == 0);
            }
            fuel = (fuel - 1) as nat;
        }
        a = b;
        b = r;
    }
    proof {
        assert(gcd_fuel(a@, b@, p as nat, fuel) == a@) by {
            if b@.len() == 1 && b@[0] == 0 {
                assert(b@ =~= seq![0u32]);
            }
        }
    }
    a
}


/// The sequence with consecutive repeated entries collapsed.
pub open spec fn dedup(s: Seq<u32>) -> Seq<u32>
    decreases s.len(),
{
    if s.len() == 0 {
        s
    } else {
        let d = dedup(s.drop_last());
        if d.len() > 0 && d.last() == s.last() {
            d
        } else {
            d.push(s.last())
        }
    }
}

/// Collapses consecutive repeated entries.
fn dedup_vec(v: &Vec<u32>) -> (d: Vec<u32>)
    ensures
        d@ == dedup(v@),
{
    let mut d: Vec<u32> = Vec::new();
    let mut i: usize = 0;
    while i < v.len()
        invariant
            i <= v@.len(),
            d@ == dedup(v@.take(i as int)),
        decreases v@.len() - i,
    {
        proof {
            assert(v@.take(i + 1).drop_last() =~= v@.take(i as int));
        }
        let x = v[i];
        if d.len() > 0 && d[d.len() - 1] == x {
        } else {
            d.push(x);
        }
        i = i + 1;
    }
    assert(v@.take(v@.len() as int) =~= v@);
    d
}

/// `base^exp * cur` modulo `p` by square-and-multiply on integers.
pub open spec fn int_powmod(cur: nat, base: nat, exp: nat, p: nat) -> nat
    decreases exp,
{
    if exp == 0 {
        cur
    } else {
        int_powmod(
            if exp % 2 == 1 {
                (cur * base) % p
            } else {
                cur
            },
            (base * base) % p,
            exp / 2,
            p,
        )
    }
}

/// `g` passes the primitive root test modulo `p` for the listed prime divisors of `p - 1`:
/// `g^((p - 1) / d) != 1` for each of them.
pub open spec fn passes_root_test(g: nat, p: nat, divs: Seq<u32>) -> bool {
    forall|i: int| 0 <= i < divs.len() ==> int_powmod(1, g, ((p - 1) / (divs[i] as int)) as nat, p) != 1
}

/// The least `g` from `start` below `p` that passes the primitive root test, or `1`.
pub open spec fn first_root(p: nat, divs: Seq<u32>, start: nat) -> nat
    decreases p - start,
{
    if start >= p {
        1
    } else if passes_root_test(start, p, divs) {
        start
    } else {
        first_root(p, divs, start + 1)
    }
}

/// The value whose remainder modulo `p` is the base-`p` digit `t` of `code`.
pub open spec fn digit_val(code: nat, p: nat, t: nat) -> nat
    decreases t,
{
    if t == 0 {
        code
    } else {
        digit_val(code, p, (t - 1) as nat) / p
    }
}

/// The monic polynomial of degree `r` whose lower coefficients are the base-`p` digits of `code`.
pub open spec fn candidate_poly(code: nat, p: nat, r: nat) -> Seq<u32> {
    Seq::new(
        r + 1,
        |t: int|
            if t < r {
                (digit_val(code, p, t as nat) % p) as u32
            } else {
                1u32
            },
    )
}

/// The polynomial `x`.
pub open spec fn x_poly() -> Seq<u32> {
    seq![0u32, 1u32]
}

/// `x^e - x` modulo `f` over `F_p`, trimmed.
pub open spec fn frobenius_diff(f: Seq<u32>, p: nat, e: nat) -> Seq<u32> {
    let d = ppow(x_poly(), e, f, p);
    let d2 = if d.len() < 2 {
        d + Seq::new((2 - d.len()) as nat, |i: int| 0u32)
    } else {
        d
    };
    trimmed(d2.update(1, ((d2[1] + p - 1) % (p as int)) as u32))
}

/// The irreducibility test on a candidate `f` of degree `r` over `F_p` (`q = p^r`): non-zero
/// constant term, `x^q = x` modulo `f`, and `gcd(f, x^(p^(r/d)) - x)` constant for each listed
/// prime divisor `d` of `r`.
pub open spec fn passes_irreducible_test(f: Seq<u32>, p: nat, r: nat, q: nat, rdivs: Seq<u32>) -> bool {
    &&& f[0] != 0
    &&& ppow(x_poly(), q, f, p) == x_poly()
    &&& forall|i: int|
        0 <= i < rdivs.len() ==> pgcd(f, frobenius_diff(f, p, pow(p as int, r / (rdivs[i] as nat)) as nat), p).len()
            <= 1
}

/// The least code from `start` below `q` whose candidate polynomial passes the test.
pub open spec fn first_irreducible(p: nat, r: nat, q: nat, rdivs: Seq<u32>, start: nat) -> Option<nat>
    decreases q - start,
{
    if start >= q {
        None
    } else if passes_irreducible_test(candidate_poly(start, p, r), p, r, q, rdivs) {
        Some(start)
    } else {
        first_irreducible(p, r, q, rdivs, start + 1)
    }
}

/// The polynomial that the search for an irreducible modulus finds passes the irreducibility test.
pub proof fn lemma_first_irreducible_passes(p: nat, r: nat, q: nat, rdivs: Seq<u32>, start: nat)
    ensures
        first_irreducible(p, r, q, rdivs, start) matches Some(c) ==> start <= c < q && passes_irreducible_test(
            candidate_poly(c, p, r),
            p,
            r,
            q,
            rdivs,
        ),
    decreases q - start,
{
    if start < q && !passes_irreducible_test(candidate_poly(start, p, r), p, r, q, rdivs) {
        lemma_first_irreducible_passes(p, r, q, rdivs, start + 1);
    }
}

/// The field element with the base-`p` digits of `code` as coefficients, trimmed.
pub open spec fn element_of(code: nat, p: nat, r: nat) -> Seq<u32> {
    trimmed(Seq::new(r, |t: int| (digit_val(code, p, t as nat) % p) as u32))
}

/// The primitivity test of a non-zero element `e` of `F_q` given by `f`: `e^((q - 1)/d) != 1`
/// for each listed prime divisor `d` of `q - 1`.
pub open spec fn passes_primitive_test(e: Seq<u32>, f: Seq<u32>, p: nat, q: nat, qdivs: Seq<u32>) -> bool {
    forall|i: int| 0 <= i < qdivs.len() ==> ppow(e, ((q - 1) / (qdivs[i] as int)) as nat, f, p) != seq![1u32]
}

/// The first non-zero element, by code from `start` below `q`, that passes the primitivity test.
pub open spec fn first_primitive(f: Seq<u32>, p: nat, r: nat, q: nat, qdivs: Seq<u32>, start: nat) -> Option<
    Seq<u32>,
>
    decreases q - start,
{
    if start >= q {
        None
    } else {
        let e = element_of(start, p, r);
        if !(e.len() == 1 && e[0] == 0) && passes_primitive_test(e, f, p, q, qdivs) {
            Some(e)
        } else {
            first_primitive(f, p, r, q, qdivs, start + 1)
        }
    }
}

/// The coefficient `i` of `a - b` modulo `p`, missing coefficients read as zero.
pub open spec fn sub_coeff(a: Seq<u32>, b: Seq<u32>, i: int, p: nat) -> u32 {
    let va: int = if i < a.len() {
        a[i] as int
    } else {
        0
    };
    let vb: int = if i < b.len() {
        b[i] as int
    } else {
        0
    };
    ((va + p - vb % (p as int)) % (p as int)) as u32
}

/// The difference `a - b` of two polynomials over `F_p`, trimmed.
pub open spec fn psub(a: Seq<u32>, b: Seq<u32>, p: nat) -> Seq<u32> {
    trimmed(
        Seq::new(
            if a.len() >= b.len() {
                a.len()
            } else {
                b.len()
            },
            |k: int| sub_coeff(a, b, k, p),
        ),
    )
}

/// The monomial `x^l`.
pub open spec fn monomial(l: nat) -> Seq<u32> {
    Seq::new(l + 1, |i: int| if i == l { 1u32 } else { 0u32 })
}

/// The data of `F_{p^r}` as [`FiniteField::new`] chooses it: for `r = 1` the modulus `x` and the
/// least primitive root; otherwise the first candidate that passes the irreducibility test and
/// the first element that passes the primitivity test.
pub open spec fn field_data(p: nat, r: nat, poly: Seq<u32>, prim: Seq<u32>) -> bool {
    let q = pow(p as int, r) as nat;
    &&& r == 1 ==> poly == x_poly() && exists|fp: Seq<u32>|
        #[trigger] is_factorization(fp, (p - 1) as nat) && prim == seq![first_root(p, dedup(fp), 1) as u32]
    &&& r > 1 ==> exists|fr: Seq<u32>, fq: Seq<u32>|
        #![trigger is_factorization(fr, r), is_factorization(fq, (q - 1) as nat)]
        is_factorization(fr, r) && is_factorization(fq, (q - 1) as nat) && (first_irreducible(p, r, q, dedup(fr), 1) matches Some(
            c,
        ) && poly == candidate_poly(c, p, r) && first_primitive(poly, p, r, q, dedup(fq), 1) == Some(prim))
}

/// The element that the search for a primitive element finds is non-zero and passes the
/// primitivity test.
pub proof fn lemma_first_primitive_passes(f: Seq<u32>, p: nat, r: nat, q: nat, qdivs: Seq<u32>, start: nat)
    ensures
        first_primitive(f, p, r, q, qdivs, start) matches Some(e) ==> !(e.len() == 1 && e[0] == 0) && passes_primitive_test(
            e,
            f,
            p,
            q,
            qdivs,
        ),
    decreases q - start,
{
    if start < q {
        let e = element_of(start, p, r);
        if !(!(e.len() == 1 && e[0] == 0) && passes_primitive_test(e, f, p, q, qdivs)) {
            lemma_first_primitive_passes(f, p, r, q, qdivs, start + 1);
        }
    }
}

/// A primitive element found by the search has at most `r` coefficients, and at least one.
proof fn lemma_first_primitive_len(f: Seq<u32>, p: nat, r: nat, q: nat, qdivs: Seq<u32>, start: nat)
    requires
        r >= 1,
    ensures
        first_primitive(f, p, r, q, qdivs, start) matches Some(e) ==> 1 <= e.len() <= r,
    decreases q - start,
{
    if start < q {
        lemma_trimmed(Seq::new(r, |t: int| (digit_val(start, p, t as nat) % p) as u32));
        lemma_first_primitive_len(f, p, r, q, qdivs, start + 1);
    }
}

/// `n` zero coefficients.
fn zero_coeffs(n: usize) -> (v: Vec<u32>)
    ensures
        v@ == Seq::new(n as nat, |i: int| 0u32),
{
    let mut v: Vec<u32> = Vec::new();
    let mut i: usize = 0;
    while i < n
        invariant
            i <= n,
            v@ == Seq::new(i as nat, |k: int| 0u32),
        decreases n - i,
    {
        v.push(0);
        i = i + 1;
        assert(v@ =~= Seq::new(i as nat, |k: int| 0u32));
    }
    v
}

/// The searches for an irreducible polynomial and a primitive element of `F_{p^r}` succeed for
/// every list of prime factors of `r` and of `p^r - 1`.
pub open spec fn field_search_succeeds(p: nat, r: nat) -> bool {
    let q = pow(p as int, r) as nat;
    r == 1 || forall|fr: Seq<u32>, fq: Seq<u32>|
        #![trigger is_factorization(fr, r), is_factorization(fq, (q - 1) as nat)]
        is_factorization(fr, r) && is_factorization(fq, (q - 1) as nat) ==> (first_irreducible(
            p,
            r,
            q,
            dedup(fr),
            1,
        ) matches Some(c) && first_primitive(candidate_poly(c, p, r), p, r, q, dedup(fq), 1) is Some)
}


/// Entries that are at least `lo` stay so after removing repeats.
proof fn lemma_dedup_ge(s: Seq<u32>, lo: u32)
    requires
        forall|i: int| 0 <= i < s.len() ==> #[trigger] s[i] >= lo,
    ensures
        forall|i: int| 0 <= i < dedup(s).len() ==> #[trigger] dedup(s)[i] >= lo,
    decreases s.len(),
{
    if s.len() > 0 {
        assert forall|i: int| 0 <= i < s.drop_last().len() implies #[trigger] s.drop_last()[i] >= lo by {
            assert(s.drop_last()[i] == s[i]);
        }
        lemma_dedup_ge(s.drop_last(), lo);
        let d = dedup(s.drop_last());
        assert(s.last() >= lo);
        assert forall|i: int| 0 <= i < dedup(s).len() implies #[trigger] dedup(s)[i] >= lo by {
            if i < d.len() {
                assert(dedup(s)[i] == d[i]);
            }
        }
    }
}

/// Powers of a base of at least two grow at least as fast as powers of two.
proof fn lemma_pow_ge_two_pow(b: nat, e: nat)
    requires
        b >= 2,
    ensures
        pow(b as int, e) >= pow(2, e),
        pow(2, e) >= 1,
    decreases e,
{
    reveal(pow);
    if e > 0 {
        lemma_pow_ge_two_pow(b, (e - 1) as nat);
        assert(b * pow(b as int, (e - 1) as nat) >= 2 * pow(2, (e - 1) as nat)) by (nonlinear_arith)
            requires
                b >= 2,
                pow(b as int, (e - 1) as nat) >= pow(2, (e - 1) as nat),
                pow(2, (e - 1) as nat) >= 1,
        ;
    }
}

/// A power of at most `u32::MAX` with a base of at least two has an exponent below 32.
pub proof fn lemma_small_exponent(b: nat, e: nat)
    requires
        b >= 2,
        pow(b as int, e) <= u32::MAX,
    ensures
        e < 32,
{
    lemma_pow_ge_two_pow(b, e);
    if e >= 32 {
        vstd::arithmetic::power::lemma_pow_increases(2, 32, e);
        reveal_with_fuel(pow, 33);
        assert(pow(2, 32) == 0x1_0000_0000) by {
            reveal_with_fuel(pow, 33);
        }
    }
}

/// `b^e` as a 64-bit integer.
pub(crate) fn pow_u64(b: u32, e: usize) -> (r: u64)
    requires
        b >= 1,
        pow(b as int, e as nat) <= u32::MAX,
    ensures
        r == pow(b as int, e as nat),
{
    let mut acc: u64 = 1;
    let mut i: usize = 0;
    proof {
        reveal(pow);
    }
    while i < e
        invariant
            i <= e,
            b >= 1,
            pow(b as int, e as nat) <= u32::MAX,
            acc == pow(b as int, i as nat),
        decreases e - i,
    {
        proof {
            vstd::arithmetic::power::lemma_pow_increases(b as nat, (i + 1) as nat, e as nat);
            assert(pow(b as int, (i + 1) as nat) == b * pow(b as int, i as nat)) by {
                reveal(pow);
            }
            assert((acc as int) * (b as int) == pow(b as int, (i + 1) as nat)) by (nonlinear_arith)
                requires
                    acc == pow(b as int, i as nat),
                    pow(b as int, (i + 1) as nat) == b * pow(b as int, i as nat),
            ;
        }
        acc = acc * (b as u64);
        i = i + 1;
    }
    acc
}

/// `g^e` modulo `p` on integers, by square-and-multiply.
fn int_pow_mod(g: u64, e: u64, p: u64) -> (r: u64)
    requires
        2 <= p <= u32::MAX,
        g < p,
    ensures
        r == int_powmod(1, g as nat, e as nat, p as nat),
{
    let mut cur: u64 = 1;
    let mut base: u64 = g;
    let mut exp: u64 = e;
    while exp > 0
        invariant
            2 <= p <= u32::MAX,
            cur < p,
            base < p,
            int_powmod(cur as nat, base as nat, exp as nat, p as nat) == int_powmod(1, g as nat, e as nat, p as nat),
        decreases exp,
    {
        let ghost e0 = exp;
        proof {
            assert(cur * base < 0x1_0000_0000_0000_0000) by (nonlinear_arith)
                requires
                    cur < p,
                    base < p,
                    p <= u32::MAX,
            ;
            assert(base * base < 0x1_0000_0000_0000_0000) by (nonlinear_arith)
                requires
                    base < p,
                    p <= u32::MAX,
            ;
        }
        let bit = exp & 1;
        proof {
            assert(bit == 1 <==> exp % 2 == 1) by (bit_vector)
                requires
                    bit == exp & 1,
            ;
        }
        if bit == 1 {
            cur = (cur * base) % p;
        }
        base = (base * base) % p;
        exp = exp >> 1;
        proof {
            assert(exp == e0 / 2) by (bit_vector)
                requires
                    exp == e0 >> 1,
            ;
        }
    }
    cur
}

/// Whether two coefficient lists are equal.
fn same_coeffs(a: &[u32], b: &[u32]) -> (r: bool)
    ensures
        r == (a@ == b@),
{
    if a.len() != b.len() {
        return false;
    }
    let mut i: usize = 0;
    while i < a.len()
        invariant
            i <= a@.len(),
            a@.len() == b@.len(),
            forall|k: int| 0 <= k < i ==> a@[k] == b@[k],
        decreases a@.len() - i,
    {
        if a[i] != b[i] {
            return false;
        }
        i = i + 1;
    }
    assert(a@ =~= b@);
    true
}

/// Square-and-multiply keeps coefficients reduced.
proof fn lemma_powmod_reduced(res: Seq<u32>, cur: Seq<u32>, exp: nat, m: Seq<u32>, p: nat)
    requires
        p > 0,
        m.len() >= 1,
        reduced_coeffs(res, p),
    ensures
        reduced_coeffs(powmod_loop(res, cur, exp, m, p), p),
    decreases exp,
{
    if exp > 0 {
        lemma_pmul_len(res, cur, p);
        lemma_pmul_len(cur, cur, p);
        lemma_prem(pmul(res, cur, p), m, p);
        lemma_prem(pmul(cur, cur, p), m, p);
        let res2 = if exp % 2 == 1 {
            prem(pmul(res, cur, p), m, p)
        } else {
            res
        };
        lemma_powmod_reduced(res2, prem(pmul(cur, cur, p), m, p), exp / 2, m, p);
    }
}

/// Square-and-multiply results are no longer than the modulus.
proof fn lemma_powmod_len(res: Seq<u32>, cur: Seq<u32>, exp: nat, m: Seq<u32>, p: nat)
    requires
        p > 0,
        m.len() >= 1,
        res.len() <= m.len(),
    ensures
        powmod_loop(res, cur, exp, m, p).len() <= m.len(),
    decreases exp,
{
    if exp > 0 {
        lemma_pmul_len(res, cur, p);
        lemma_prem(pmul(res, cur, p), m, p);
        let res2 = if exp % 2 == 1 {
            prem(pmul(res, cur, p), m, p)
        } else {
            res
        };
        lemma_powmod_len(res2, prem(pmul(cur, cur, p), m, p), exp / 2, m, p);
    }
}

/// A power modulo `m` is no longer than `m`.
pub proof fn lemma_ppow_len(base: Seq<u32>, exp: nat, m: Seq<u32>, p: nat)
    requires
        p > 0,
        m.len() >= 1,
    ensures
        ppow(base, exp, m, p).len() <= m.len(),
{
    lemma_powmod_len(seq![1u32], prem(base, m, p), exp, m, p);
}

/// A power modulo `m` has reduced coefficients.
proof fn lemma_ppow_reduced(base: Seq<u32>, exp: nat, m: Seq<u32>, p: nat)
    requires
        p > 1,
        m.len() >= 1,
    ensures
        reduced_coeffs(ppow(base, exp, m, p), p),
{
    assert(reduced_coeffs(seq![1u32], p));
    lemma_powmod_reduced(seq![1u32], prem(base, m, p), exp, m, p);
}

/// The finite field `F_q`, `q = p^r`: the characteristic `p`, the degree `r`, the order `q`, a
/// monic irreducible polynomial `poly` of degree `r` over `F_p` and a primitive element `prim`.
#[derive(Debug, Clone, PartialEq, Eq)]
pub struct FiniteField {
    pub p: u32,
    pub r: usize,
    pub q: u64,
    pub poly: Vec<u32>,
    pub prim: Vec<u32>,
}

impl FiniteField {
    /// The characteristic is prime, `q = p^r` fits in a `u32`, and the modulus is monic of
    /// degree `r` with reduced coefficients.
    pub open spec fn wf(&self) -> bool {
        &&& spec_is_prime(self.p as int)
        &&& self.r >= 1
        &&& self.q == pow(self.p as int, self.r as nat)
        &&& self.q <= u32::MAX
        &&& self.poly@.len() == self.r + 1
        &&& self.poly@.last() == 1
        &&& reduced_coeffs(self.poly@, self.p as nat)
    }

    /// Constructs `F_{p^r}`: for `r = 1` the modulus is `x` and the primitive element is the
    /// least primitive root modulo `p`; otherwise the modulus is the first monic polynomial, by
    /// the base-`p` digits of its lower coefficients, that passes the irreducibility test, and
    /// the primitive element the first non-zero element that passes the primitivity test.
    pub fn new(p: u32, r: usize) -> (f: Self)
        requires
            spec_is_prime(p as int),
            r >= 1,
            pow(p as int, r as nat) <= u32::MAX,
            field_search_succeeds(p as nat, r as nat),
        ensures
            f.wf(),
            f.p == p,
            f.r == r,
            f.q == pow(p as int, r as nat),
            r == 1 ==> f.poly@ == x_poly() && exists|fp: Seq<u32>|
                #[trigger] is_factorization(fp, (p - 1) as nat) && f.prim@ == seq![first_root(p as nat, dedup(fp), 1) as u32],
            r > 1 ==> exists|fr: Seq<u32>, fq: Seq<u32>|
                #![trigger is_factorization(fr, r as nat), is_factorization(fq, (f.q - 1) as nat)]
                is_factorization(fr, r as nat) && is_factorization(fq, (f.q - 1) as nat) && (first_irreducible(
                    p as nat,
                    r as nat,
                    f.q as nat,
                    dedup(fr),
                    1,
                ) matches Some(c) && f.poly@ == candidate_poly(c, p as nat, r as nat) && first_primitive(
                    f.poly@,
                    p as nat,
                    r as nat,
                    f.q as nat,
                    dedup(fq),
                    1,
                ) == Some(f.prim@)),
            field_data(p as nat, r as nat, f.poly@, f.prim@),
            1 <= f.prim@.len() <= r,
            r > 1 ==> exists|fr: Seq<u32>, fq: Seq<u32>|
                #![trigger is_factorization(fr, r as nat), is_factorization(fq, (f.q - 1) as nat)]
                is_factorization(fr, r as nat) && is_factorization(fq, (f.q - 1) as nat) && passes_irreducible_test(
                    f.poly@,
                    p as nat,
                    r as nat,
                    f.q as nat,
                    dedup(fr),
                ) && !(f.prim@.len() == 1 && f.prim@[0] == 0) && passes_primitive_test(f.prim@, f.poly@, p as nat, f.q as nat, dedup(fq)),
    {
        proof {
            lemma_small_exponent(p as nat, r as nat);
        }
        let q = pow_u64(p, r);
        if r == 1 {
            return Self::prime_field(p, q);
        }
        let f = Self::extension_field(p, r, q);
        proof {
            let (fr, fq) = choose|fr: Seq<u32>, fq: Seq<u32>|
                #![trigger is_factorization(fr, r as nat), is_factorization(fq, (f.q - 1) as nat)]
                is_factorization(fr, r as nat) && is_factorization(fq, (f.q - 1) as nat) && (first_irreducible(
                    p as nat,
                    r as nat,
                    f.q as nat,
                    dedup(fr),
                    1,
                ) matches Some(c) && f.poly@ == candidate_poly(c, p as nat, r as nat) && first_primitive(
                    f.poly@,
                    p as nat,
                    r as nat,
                    f.q as nat,
                    dedup(fq),
                    1,
                ) == Some(f.prim@));
            lemma_first_primitive_len(f.poly@, p as nat, r as nat, f.q as nat, dedup(fq), 1);
            lemma_first_irreducible_passes(p as nat, r as nat, f.q as nat, dedup(fr), 1);
            lemma_first_primitive_passes(f.poly@, p as nat, r as nat, f.q as nat, dedup(fq), 1);
        }
        f
    }

    /// Multiplies two field elements: their product modulo the field polynomial.
    pub fn mul(&self, a: &[u32], b: &[u32]) -> (c: Vec<u32>)
        requires
            self.wf(),
            a@.len() + b@.len() <= usize::MAX,
        ensures
            c@ == prem(pmul(a@, b@, self.p as nat), self.poly@, self.p as nat),
    {
        proof {
            assert(1u32 % self.p == 1) by (nonlinear_arith)
                requires
                    self.p >= 2,
            ;
        }
        poly_rem(poly_mul(a, b, self.p), self.poly.as_slice(), self.p)
    }

    /// Raises a field element to a power modulo the field polynomial.
    pub fn pow(&self, base: &[u32], exp: u64) -> (c: Vec<u32>)
        requires
            self.wf(),
            base@.len() <= 0x1000_0000,
        ensures
            c@ == ppow(base@, exp as nat, self.poly@, self.p as nat),
    {
        proof {
            assert(1u32 % self.p == 1) by (nonlinear_arith)
                requires
                    self.p >= 2,
            ;
            lemma_small_exponent(self.p as nat, self.r as nat);
        }
        poly_powmod(base, exp, self.poly.as_slice(), self.p)
    }

    /// The multiplicative inverse of a non-zero element: `a^(q - 2)`, and `[1]` in `F_2`.
    pub fn inv(&self, a: &[u32]) -> (c: Vec<u32>)
        requires
            self.wf(),
            a@.len() <= 0x1000_0000,
        ensures
            self.q <= 2 ==> c@ == seq![1u32],
            self.q > 2 ==> c@ == ppow(a@, (self.q - 2) as nat, self.poly@, self.p as nat),
    {
        if self.q <= 2 {
            let one: Vec<u32> = vec![1];
            assert(one@ =~= seq![1u32]);
            return one;
        }
        self.pow(a, self.q - 2)
    }

    /// Subtracts field elements coefficientwise modulo `p`, trimmed.
    pub fn sub(&self, a: &[u32], b: &[u32]) -> (c: Vec<u32>)
        requires
            self.p > 0,
        ensures
            c@ == psub(a@, b@, self.p as nat),
    {
        let p = self.p;
        let max_len = if a.len() >= b.len() {
            a.len()
        } else {
            b.len()
        };
        let mut res: Vec<u32> = Vec::new();
        let mut i: usize = 0;
        while i < max_len
            invariant
                i <= max_len,
                p == self.p,
                p > 0,
                max_len == if a@.len() >= b@.len() {
                    a@.len()
                } else {
                    b@.len()
                },
                res@ == Seq::new(i as nat, |k: int| sub_coeff(a@, b@, k, p as nat)),
            decreases max_len - i,
        {
            let va: u64 = if i < a.len() {
                a[i] as u64
            } else {
                0
            };
            let vb: u64 = if i < b.len() {
                b[i] as u64
            } else {
                0
            };
            res.push(((va + p as u64 - (vb % (p as u64))) % (p as u64)) as u32);
            i = i + 1;
            assert(res@ =~= Seq::new(i as nat, |k: int| sub_coeff(a@, b@, k, p as nat)));
        }
        trim(&mut res);
        res
    }

    /// The basis element `x^l`.
    pub fn basis_element(&self, l: usize) -> (v: Vec<u32>)
        requires
            l < usize::MAX,
        ensures
            v@ == monomial(l as nat),
    {
        if l == 0 {
            let v: Vec<u32> = vec![1];
            assert(v@ =~= monomial(0));
            v
        } else {
            let mut v = zero_coeffs(l + 1);
            v.set(l, 1);
            assert(v@ =~= monomial(l as nat));
            v
        }
    }

    /// The product of basis elements `x^l * x^v` reduced modulo the field polynomial.
    pub fn basis_product(&self, l: usize, v: usize) -> (c: Vec<u32>)
        requires
            self.wf(),
            l + v < usize::MAX,
        ensures
            c@ == prem(monomial((l + v) as nat), self.poly@, self.p as nat),
    {
        let mut prod = zero_coeffs(l + v + 1);
        prod.set(l + v, 1);
        proof {
            assert(1u32 % self.p == 1) by (nonlinear_arith)
                requires
                    self.p >= 2,
            ;
            if l + v == 0 {
                assert(prod@ =~= monomial(0));
            } else {
                assert(prod@ =~= monomial((l + v) as nat));
            }
        }
        poly_rem(prod, self.poly.as_slice(), self.p)
    }

    /// The prime field `F_p` with the least primitive root.
    fn prime_field(p: u32, q: u64) -> (f: Self)
        requires
            spec_is_prime(p as int),
            q == pow(p as int, 1),
            q <= u32::MAX,
        ensures
            f.wf(),
            f.p == p,
            f.r == 1,
            f.q == q,
            f.poly@ == x_poly(),
            exists|fp: Seq<u32>|
                #[trigger] is_factorization(fp, (p - 1) as nat) && f.prim@ == seq![first_root(p as nat, dedup(fp), 1) as u32],
    {
        let order = p - 1;
        let factors = factorize(order);
        let divs = dedup_vec(&factors);
        let ghost fp = factors@;
        proof {
            lemma_dedup_ge(factors@, 2);
            assert forall|i: int| 0 <= i < factors@.len() implies #[trigger] factors@[i] >= 2 by {
                assert(spec_is_prime(factors@[i] as int));
            }
            lemma_dedup_ge(factors@, 2);
            if order <= 1 {
                assert(factors@.len() == 0);
                assert(seq_product(factors@) == 1);
            }
            assert(is_factorization(fp, (p - 1) as nat));
        }
        let mut prim_elem: u32 = 1;
        let mut g: u32 = 1;
        let mut done = false;
        while g < p && !done
            invariant
                1 <= g <= p,
                spec_is_prime(p as int),
                order == p - 1,
                forall|i: int| 0 <= i < divs@.len() ==> #[trigger] divs@[i] >= 2,
                done ==> prim_elem == first_root(p as nat, divs@, 1),
                !done ==> prim_elem == 1,
                !done ==> first_root(p as nat, divs@, 1) == first_root(p as nat, divs@, g as nat),
            decreases p - g, if done { 0int } else { 1int },
        {
            let mut is_prim = true;
            let mut k: usize = 0;
            while k < divs.len() && is_prim
                invariant
                    k <= divs@.len(),
                    1 <= g < p,
                    spec_is_prime(p as int),
                    order == p - 1,
                    forall|i: int| 0 <= i < divs@.len() ==> #[trigger] divs@[i] >= 2,
                    is_prim ==> forall|i: int|
                        0 <= i < k ==> int_powmod(1, g as nat, ((p - 1) / (divs@[i] as int)) as nat, p as nat) != 1,
                    !is_prim ==> !passes_root_test(g as nat, p as nat, divs@),
                decreases divs@.len() - k,
            {
                let d = divs[k];
                let e = (order / d) as u64;
                let cur = int_pow_mod(g as u64, e, p as u64);
                if cur == 1 {
                    is_prim = false;
                }
                k = k + 1;
            }
            if is_prim {
                prim_elem = g;
                done = true;
            } else {
                g = g + 1;
            }
        }
        let prim = vec![prim_elem];
        let poly = vec![0, 1];
        proof {
            assert(poly@ =~= x_poly());
            assert(prim@ =~= seq![first_root(p as nat, divs@, 1) as u32]);
            reveal(pow);
        }
        FiniteField { p, r: 1, q, poly, prim }
    }

    /// `F_{p^r}` for `r > 1`: the first monic polynomial that passes the irreducibility test and
    /// the first element that passes the primitivity test.
    fn extension_field(p: u32, r: usize, q: u64) -> (f: Self)
        requires
            spec_is_prime(p as int),
            r > 1,
            r < 32,
            q == pow(p as int, r as nat),
            q <= u32::MAX,
            field_search_succeeds(p as nat, r as nat),
        ensures
            f.wf(),
            f.p == p,
            f.r == r,
            f.q == q,
            exists|fr: Seq<u32>, fq: Seq<u32>|
                #![trigger is_factorization(fr, r as nat), is_factorization(fq, (q - 1) as nat)]
                is_factorization(fr, r as nat) && is_factorization(fq, (q - 1) as nat) && (first_irreducible(
                    p as nat,
                    r as nat,
                    q as nat,
                    dedup(fr),
                    1,
                ) matches Some(c) && f.poly@ == candidate_poly(c, p as nat, r as nat) && first_primitive(
                    f.poly@,
                    p as nat,
                    r as nat,
                    q as nat,
                    dedup(fq),
                    1,
                ) == Some(f.prim@)),
    {
        let ghost pn = p as nat;
        let ghost rn = r as nat;
        let ghost qn = q as nat;
        proof {
            vstd::arithmetic::power::lemma_pow_strictly_increases(pn, 0, rn);
            assert(pow(pn as int, 0) == 1) by {
                reveal(pow);
            }
        }
        let rfactors = factorize(r as u32);
        let rdivs = dedup_vec(&rfactors);
        let qfactors = factorize((q - 1) as u32);
        let qdivs = dedup_vec(&qfactors);
        proof {
            assert forall|i: int| 0 <= i < rfactors@.len() implies #[trigger] rfactors@[i] >= 2 by {
                assert(spec_is_prime(rfactors@[i] as int));
            }
            lemma_dedup_ge(rfactors@, 2);
            assert forall|i: int| 0 <= i < qfactors@.len() implies #[trigger] qfactors@[i] >= 2 by {
                assert(spec_is_prime(qfactors@[i] as int));
            }
            lemma_dedup_ge(qfactors@, 2);
            assert(is_factorization(rfactors@, rn));
            vstd::arithmetic::power::lemma_pow_strictly_increases(pn, 0, rn);
            assert(pow(pn as int, 0) == 1) by {
                reveal(pow);
            }
            if q - 1 <= 1 {
                assert(qfactors@.len() == 0);
                assert(seq_product(qfactors@) == 1);
            }
            assert(is_factorization(qfactors@, (q - 1) as nat));
            assert(first_irreducible(pn, rn, qn, rdivs@, 1) is Some);
        }
        // the monic candidate polynomials of degree r, by code
        let mut poly = zero_coeffs(r + 1);
        poly.set(r, 1);
        let mut found = false;
        let mut code: u64 = 1;
        while code < q && !found
            invariant
                1 <= code <= q,
                spec_is_prime(p as int),
                1 < r < 32,
                pn == p,
                rn == r,
                qn == q,
                q <= u32::MAX,
                forall|i: int| 0 <= i < rdivs@.len() ==> #[trigger] rdivs@[i] >= 2,
                q == pow(p as int, r as nat),
                poly@.len() == r + 1,
                poly@[r as int] == 1,
                reduced_coeffs(poly@, p as nat),
                found ==> first_irreducible(pn, rn, qn, rdivs@, 1) == Some((code - 1) as nat) && poly@
                    == candidate_poly((code - 1) as nat, pn, rn),
                !found ==> first_irreducible(pn, rn, qn, rdivs@, 1) == first_irreducible(pn, rn, qn, rdivs@, code as nat),
            decreases q - code, if found { 0int } else { 1int },
        {
            let mut val: u64 = code;
            let mut t: usize = 0;
            while t < r
                invariant
                    t <= r,
                    p >= 2,
                    poly@.len() == r + 1,
                    poly@[r as int] == 1,
                    val == digit_val(code as nat, p as nat, t as nat),
                    forall|k: int| 0 <= k < t ==> #[trigger] poly@[k] == digit_val(code as nat, p as nat, k as nat) % (p as nat),
                decreases r - t,
            {
                poly.set(t, (val % (p as u64)) as u32);
                val = val / (p as u64);
                t = t + 1;
            }
            proof {
                assert(poly@ =~= candidate_poly(code as nat, pn, rn));
            }
            proof {
                assert(poly@.last() == 1);
                assert(1u32 % p == 1) by (nonlinear_arith)
                    requires
                        p >= 2,
                ;
            }
            let cand_ok = if poly[0] == 0 {
                false
            } else {
                let x: Vec<u32> = vec![0, 1];
                proof {
                    assert(x@ =~= x_poly());
                }
                let xq = poly_powmod(&x, q, &poly, p);
                if !same_coeffs(&xq, &x) {
                    false
                } else {
                    let mut is_irred = true;
                    let mut k: usize = 0;
                    while k < rdivs.len() && is_irred
                        invariant
                            k <= rdivs@.len(),
                            spec_is_prime(p as int),
                            1 < r < 32,
                            pn == p,
                            rn == r,
                            q == pow(p as int, r as nat),
                            q <= u32::MAX,
                            forall|i: int| 0 <= i < rdivs@.len() ==> #[trigger] rdivs@[i] >= 2,
                            poly@.len() == r + 1,
                            poly@[r as int] == 1,
                            reduced_coeffs(poly@, p as nat),
                            x@ == x_poly(),
                            is_irred ==> forall|i: int|
                                0 <= i < k ==> pgcd(
                                    poly@,
                                    frobenius_diff(poly@, pn, pow(pn as int, rn / (rdivs@[i] as nat)) as nat),
                                    pn,
                                ).len() <= 1,
                            !is_irred ==> exists|i: int|
                                0 <= i < rdivs@.len() && pgcd(
                                    poly@,
                                    frobenius_diff(poly@, pn, pow(pn as int, rn / (rdivs@[i] as nat)) as nat),
                                    pn,
                                ).len() > 1,
                        decreases rdivs@.len() - k,
                    {
                        let d = rdivs[k] as usize;
                        proof {
                            vstd::arithmetic::power::lemma_pow_increases(pn, (r / d) as nat, rn);
                        }
                        let exp_d = pow_u64(p, r / d);
                        proof {
                            assert(poly@.last() == 1);
                            assert(1u32 % p == 1) by (nonlinear_arith)
                                requires
                                    p >= 2,
                            ;
                        }
                        let mut diff = poly_powmod(&x, exp_d, &poly, p);
                        proof {
                            lemma_ppow_reduced(x@, exp_d as nat, poly@, pn);
                        }
                        let ghost d0 = diff@;
                        while diff.len() < 2
                            invariant
                                diff@.len() <= 2 || diff@ == d0,
                                d0.len() < 2 ==> diff@ == d0 + Seq::new((diff@.len() - d0.len()) as nat, |i: int| 0u32),
                                d0.len() >= 2 ==> diff@ == d0,
                                diff@.len() >= d0.len(),
                            decreases 2 - diff@.len(),
                        {
                            diff.push(0);
                            proof {
                                if d0.len() < 2 {
                                    assert(diff@ =~= d0 + Seq::new((diff@.len() - d0.len()) as nat, |i: int| 0u32));
                                }
                            }
                        }
                        let v1 = diff[1];
                        diff.set(1, ((v1 as u64 + p as u64 - 1) % (p as u64)) as u32);
                        let ghost d3 = diff@;
                        trim(&mut diff);
                        proof {
                            let d2 = if d0.len() < 2 {
                                d0 + Seq::new((2 - d0.len()) as nat, |i: int| 0u32)
                            } else {
                                d0
                            };
                            assert(d3 =~= d2.update(1, ((d2[1] + pn - 1) % (pn as int)) as u32));
                            assert(diff@ == frobenius_diff(poly@, pn, exp_d as nat));
                            lemma_trimmed(d3);
                            assert forall|t2: int| 0 <= t2 < diff@.len() implies #[trigger] diff@[t2] < p by {
                                assert(diff@[t2] == d3[t2]);
                            }
                        }
                        let g = poly_gcd(copy_coeffs(&poly), diff, p);
                        if g.len() > 1 {
                            is_irred = false;
                        }
                        k = k + 1;
                    }
                    is_irred
                }
            };
            proof {
                assert(cand_ok == passes_irreducible_test(candidate_poly(code as nat, pn, rn), pn, rn, qn, rdivs@));
            }
            if cand_ok {
                found = true;
            }
            code = code + 1;
        }
        proof {
            if !found {
                assert(first_irreducible(pn, rn, qn, rdivs@, code as nat) is None);
            }
        }
        // the first primitive element
        let mut prim: Vec<u32> = Vec::new();
        let mut got = false;
        let mut code2: u64 = 1;
        proof {
            assert(first_primitive(poly@, pn, rn, qn, qdivs@, 1) is Some);
        }
        while code2 < q && !got
            invariant
                1 <= code2 <= q,
                spec_is_prime(p as int),
                1 < r < 32,
                pn == p,
                rn == r,
                qn == q,
                q <= u32::MAX,
                q >= 2,
                forall|i: int| 0 <= i < qdivs@.len() ==> #[trigger] qdivs@[i] >= 2,
                poly@.len() == r + 1,
                poly@[r as int] == 1,
                got ==> first_primitive(poly@, pn, rn, qn, qdivs@, 1) == Some(prim@),
                !got ==> first_primitive(poly@, pn, rn, qn, qdivs@, 1) == first_primitive(
                    poly@,
                    pn,
                    rn,
                    qn,
                    qdivs@,
                    code2 as nat,
                ),
            decreases q - code2, if got { 0int } else { 1int },
        {
            let mut elem = zero_coeffs(r);
            let mut val: u64 = code2;
            let mut t: usize = 0;
            while t < r
                invariant
                    t <= r,
                    p >= 2,
                    elem@.len() == r,
                    val == digit_val(code2 as nat, p as nat, t as nat),
                    forall|k: int| 0 <= k < t ==> #[trigger] elem@[k] == digit_val(code2 as nat, p as nat, k as nat) % (p as nat),
                decreases r - t,
            {
                elem.set(t, (val % (p as u64)) as u32);
                val = val / (p as u64);
                t = t + 1;
            }
            proof {
                assert(elem@ =~= Seq::new(rn, |t: int| (digit_val(code2 as nat, pn, t as nat) % pn) as u32));
            }
            trim(&mut elem);
            proof {
                lemma_trimmed(Seq::new(rn, |t: int| (digit_val(code2 as nat, pn, t as nat) % pn) as u32));
            }
            let is_zero = elem.len() == 1 && elem[0] == 0;
            let mut is_prim = !is_zero;
            let mut k: usize = 0;
            while k < qdivs.len() && is_prim
                invariant
                    k <= qdivs@.len(),
                    spec_is_prime(p as int),
                    1 < r < 32,
                    q >= 2,
                    pn == p,
                    qn == q,
                    forall|i: int| 0 <= i < qdivs@.len() ==> #[trigger] qdivs@[i] >= 2,
                    poly@.len() == r + 1,
                    poly@[r as int] == 1,
                    elem@.len() <= r,
                    is_prim ==> !is_zero && forall|i: int|
                        0 <= i < k ==> ppow(elem@, ((qn - 1) / (qdivs@[i] as int)) as nat, poly@, pn) != seq![1u32],
                    !is_prim ==> is_zero || !passes_primitive_test(elem@, poly@, pn, qn, qdivs@),
                decreases qdivs@.len() - k,
            {
                let d = qdivs[k] as u64;
                let e = (q - 1) / d;
                proof {
                    assert(poly@.last() == 1);
                    assert(1u32 % p == 1) by (nonlinear_arith)
                        requires
                            p >= 2,
                    ;
                }
                let pw = poly_powmod(&elem, e, &poly, p);
                let one: Vec<u32> = vec![1];
                proof {
                    assert(one@ =~= seq![1u32]);
                }
                if same_coeffs(&pw, &one) {
                    is_prim = false;
                }
                k = k + 1;
            }
            if is_prim {
                prim = elem;
                got = true;
            }
            code2 = code2 + 1;
        }
        proof {
            if !got {
                assert(first_primitive(poly@, pn, rn, qn, qdivs@, code2 as nat) is None);
            }
            assert(poly@.last() == 1);
        }
        FiniteField { p, r, q, poly, prim }
    }
}

} // verus!
