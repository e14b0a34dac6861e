//! The unipotent groups `U(n, q)` of unit upper-triangular matrices over `F_q`.
use vstd::arithmetic::power::pow;
use vstd::prelude::*;

use crate::builder::lemma_primes_accepted;
use crate::extension::assemble;
use crate::presentation::Presentation;
use crate::util::field::{field_data, field_search_succeeds, lemma_prem, monomial, prem, FiniteField};
use crate::util::ntheory::spec_is_prime;
use crate::word::{Term, Word};

verus! {

/// The number of pairs `(i, j)`, `0 <= i < j < n`, of height `j - i` below `h`.
pub open spec fn pair_base(n: nat, h: nat) -> int
    decreases h,
{
    if h <= 1 {
        0
    } else {
        pair_base(n, (h - 1) as nat) + (n - (h - 1))
    }
}

/// The position of the pair `(i, j)` when pairs are ordered by height `j - i`, then by row `i`.
pub open spec fn pair_index(n: nat, i: nat, j: nat) -> int {
    pair_base(n, (j - i) as nat) + i
}

/// The pair at position `k` among the pairs of height at least `h`: the inverse of
/// [`pair_index`].
pub open spec fn decode_pair(n: nat, k: nat, h: nat) -> (nat, nat)
    decreases n - h,
{
    if h >= n {
        (0, 0)
    } else if k < n - h {
        (k, k + h)
    } else {
        decode_pair(n, (k - (n - h)) as nat, h + 1)
    }
}

/// The number of pairs `n (n - 1) / 2`.
pub open spec fn num_pairs(n: nat) -> nat {
    pair_base(n, n) as nat
}

/// The closed form of the pair count below height `h`: `2 pair_base(n, h) = 2 (h - 1) n - (h - 1) h`.
proof fn lemma_pair_base_closed(n: nat, h: nat)
    requires
        1 <= h,
    ensures
        (h - 1) * h == 2 * ((h - 1) * n - pair_base(n, h)),
    decreases h,
{
    if h > 1 {
        lemma_pair_base_closed(n, (h - 1) as nat);
        let a = h - 1;
        let pb = pair_base(n, (h - 1) as nat);
        assert((a - 1) * a == 2 * ((a - 1) * n - pb) ==> a * h == 2 * (a * n - (pb + (n - a)))) by (nonlinear_arith)
            requires
                h == a + 1,
        ;
    } else {
        assert((h - 1) * h == 0 && (h - 1) * n == 0) by (nonlinear_arith)
            requires
                h == 1,
        ;
    }
}

/// The pair counts grow with the height.
pub(crate) proof fn lemma_pair_base_mono(n: nat, h1: nat, h2: nat)
    requires
        1 <= h1 <= h2 <= n,
    ensures
        pair_base(n, h1) <= pair_base(n, h2),
        h1 < h2 ==> pair_base(n, h1) + (n - h1) <= pair_base(n, h2),
    decreases h2 - h1,
{
    if h1 < h2 {
        lemma_pair_base_mono(n, h1, (h2 - 1) as nat);
    }
}

/// Decoding gives a valid pair at the given position.
pub(crate) proof fn lemma_decode(n: nat, k: nat, h: nat)
    requires
        1 <= h <= n,
        pair_base(n, h) + k < pair_base(n, n),
    ensures
        decode_pair(n, k, h).0 < decode_pair(n, k, h).1 < n,
        pair_index(n, decode_pair(n, k, h).0, decode_pair(n, k, h).1) == pair_base(n, h) + k,
        decode_pair(n, k, h).1 - decode_pair(n, k, h).0 >= h,
    decreases n - h,
{
    if h >= n {
    } else if k < n - h {
    } else {
        lemma_pair_base_mono(n, h + 1, n);
        lemma_decode(n, (k - (n - h)) as nat, h + 1);
    }
}

/// A pair of greater height comes later, and every pair comes before `num_pairs`.
pub(crate) proof fn lemma_pair_order(n: nat, i1: nat, j1: nat, i2: nat, j2: nat)
    requires
        i1 < j1 < n,
        i2 < j2 < n,
    ensures
        j1 - i1 < j2 - i2 ==> pair_index(n, i1, j1) < pair_index(n, i2, j2),
        0 <= pair_index(n, i1, j1) < num_pairs(n),
{
    let h1 = (j1 - i1) as nat;
    let h2 = (j2 - i2) as nat;
    lemma_pair_base_mono(n, 1, h1);
    if h1 < h2 {
        lemma_pair_base_mono(n, h1, h2);
    }
    if h1 < n {
        lemma_pair_base_mono(n, h1, n);
    }
}

/// The terms `g_{base+w}^{c_w}` for the non-zero coefficients of `c` at `w < r`, negated modulo
/// `p` when `neg` holds.
pub open spec fn scaled_terms(c: Seq<u32>, base: nat, r: nat, p: nat, neg: bool) -> Seq<Term>
    decreases c.len(),
{
    if c.len() == 0 {
        Seq::empty()
    } else {
        let w = (c.len() - 1) as nat;
        let cm = (c.last() % (p as u32)) as int;
        let e = if neg {
            ((p - cm) % (p as int)) as u32
        } else {
            cm as u32
        };
        scaled_terms(c.drop_last(), base, r, p, neg) + if c.last() > 0 && w < r && e > 0 {
            seq![Term { gen_index: (base + w) as usize, exponent: e }]
        } else {
            Seq::<Term>::empty()
        }
    }
}

/// The word of `[g_a, g_b]` (`b < a`, local indices) between the elementary matrices
/// `I + x^l E_{i,j}` of `U(n, q)`: for `g_b = (i, j, l)` and `g_a = (j, y, v)` the coefficients of
/// `-x^(l+v)` on `(i, y)`; for `g_a = (i, j, l)` and `g_b = (j, y, v)` those of `x^(l+v)`;
/// otherwise trivial. Generators are shifted by `offset`.
pub open spec fn unipotent_word(n: nat, r: nat, p: nat, poly: Seq<u32>, offset: nat, a: nat, b: nat) -> Seq<Term> {
    let (i1, j1) = decode_pair(n, b / r, 1);
    let l1 = b % r;
    let (i2, j2) = decode_pair(n, a / r, 1);
    let l2 = a % r;
    if j1 == i2 {
        scaled_terms(
            prem(monomial(l1 + l2), poly, p),
            (offset + pair_index(n, i1, j2) * r) as nat,
            r,
            p,
            true,
        )
    } else if j2 == i1 {
        scaled_terms(
            prem(monomial(l2 + l1), poly, p),
            (offset + pair_index(n, i2, j1) * r) as nat,
            r,
            p,
            false,
        )
    } else {
        Seq::empty()
    }
}

/// The terms of [`scaled_terms`] lie among the generators `base .. base + r`.
pub(crate) proof fn lemma_scaled_terms(c: Seq<u32>, base: nat, r: nat, p: nat, neg: bool)
    requires
        base + r <= usize::MAX,
    ensures
        forall|t: int|
            0 <= t < scaled_terms(c, base, r, p, neg).len() ==> base <= (#[trigger] scaled_terms(c, base, r, p, neg)[t]).gen_index
                < base + r,
    decreases c.len(),
{
    if c.len() > 0 {
        lemma_scaled_terms(c.drop_last(), base, r, p, neg);
        let pre = scaled_terms(c.drop_last(), base, r, p, neg);
        assert forall|t: int| 0 <= t < scaled_terms(c, base, r, p, neg).len() implies base <= (
        #[trigger] scaled_terms(c, base, r, p, neg)[t]).gen_index < base + r by {
            if t < pre.len() {
                assert(scaled_terms(c, base, r, p, neg)[t] == pre[t]);
            }
        }
    }
}

/// There are `n (n - 1) / 2` pairs, at most `n^2`.
proof fn lemma_num_pairs(n: nat)
    requires
        n >= 1,
    ensures
        2 * num_pairs(n) == n * (n - 1),
        num_pairs(n) <= n * n,
{
    lemma_pair_base_closed(n, n);
    let pb = pair_base(n, n);
    assert(2 * pb == n * (n - 1) && pb <= n * n) by (nonlinear_arith)
        requires
            (n - 1) * n == 2 * ((n - 1) * n - pb),
            n >= 1,
    ;
}

/// The position `pair_base(n, h)` of the first pair of height `h`.
fn unipotent_pair_base(n: usize, h: usize) -> (b: usize)
    requires
        1 <= h <= n,
        n * n <= usize::MAX,
    ensures
        b == pair_base(n as nat, h as nat),
{
    proof {
        lemma_pair_base_closed(n as nat, h as nat);
        lemma_pair_base_mono(n as nat, 1, h as nat);
    }
    let hm = h - 1;
    assert(hm * n <= n * n && hm * h <= n * n) by (nonlinear_arith)
        requires
            hm < h <= n,
    ;
    let t = hm * h / 2;
    let b = hm * n - t;
    b
}

/// The number `n (n - 1) / 2` of pairs `i < j < n`.
pub(crate) fn unipotent_pair_count(n: usize) -> (np: usize)
    requires
        n >= 1,
        n * n <= usize::MAX,
    ensures
        np == num_pairs(n as nat),
{
    proof {
        lemma_num_pairs(n as nat);
        assert(n * (n - 1) <= n * n) by (nonlinear_arith)
            requires
                n >= 1,
        ;
    }
    n * (n - 1) / 2
}

/// The position of the pair `(i, j)`, `i < j < n`, among the pairs ordered by height, then row.
pub(crate) fn unipotent_pair_index(n: usize, i: usize, j: usize) -> (k: usize)
    requires
        i < j < n,
        n * n <= usize::MAX,
    ensures
        k == pair_index(n as nat, i as nat, j as nat),
        k < num_pairs(n as nat),
{
    proof {
        lemma_pair_order(n as nat, i as nat, j as nat, i as nat, j as nat);
        lemma_num_pairs(n as nat);
    }
    unipotent_pair_base(n, j - i) + i
}

/// The pair at position `k`, the inverse of [`unipotent_pair_index`].
pub(crate) fn unipotent_decode(n: usize, k: usize) -> (ij: (usize, usize))
    ensures
        ij.0 == decode_pair(n as nat, k as nat, 1).0,
        ij.1 == decode_pair(n as nat, k as nat, 1).1,
{
    let mut h: usize = 1;
    let mut k2: usize = k;
    while h < n && k2 >= n - h
        invariant
            1 <= h,
            decode_pair(n as nat, k as nat, 1) == decode_pair(n as nat, k2 as nat, h as nat),
        decreases n - h,
    {
        k2 = k2 - (n - h);
        h = h + 1;
    }
    if h >= n {
        (0, 0)
    } else {
        (k2, k2 + h)
    }
}

/// Reads the terms of [`scaled_terms`] off the coefficients `c`.
pub(crate) fn scaled_word(c: &Vec<u32>, base: usize, r: usize, p: u32, neg: bool) -> (w: Word)
    requires
        base + r <= usize::MAX,
        p >= 1,
    ensures
        w.terms@ == scaled_terms(c@, base as nat, r as nat, p as nat, neg),
{
    let mut terms: Vec<Term> = Vec::new();
    let mut k: usize = 0;
    while k < c.len()
        invariant
            k <= c@.len(),
            base + r <= usize::MAX,
            p >= 1,
            terms@ == scaled_terms(c@.take(k as int), base as nat, r as nat, p as nat, neg),
        decreases c@.len() - k,
    {
        proof {
            assert(c@.take(k + 1).drop_last() =~= c@.take(k as int));
        }
        let coeff = c[k];
        let cm = coeff % p;
        let e = if neg {
            (p - cm) % p
        } else {
            cm
        };
        if coeff > 0 && k < r && e > 0 {
            terms.push(Term::new(base + k, e));
        }
        k = k + 1;
        proof {
            assert(terms@ =~= scaled_terms(c@.take(k as int), base as nat, r as nat, p as nat, neg));
        }
    }
    assert(c@.take(c@.len() as int) =~= c@);
    Word::new(terms)
}

/// The presentation of `U(n, p^r)` over the modulus `poly`: `n (n - 1) / 2 * r` generators of
/// order `p`, trivial powers, and the commutators of [`unipotent_word`].
pub open spec fn is_unipotent_presentation(pres: Presentation, n: nat, p: nat, r: nat, poly: Seq<u32>) -> bool {
    let total = num_pairs(n) * r;
    &&& pres.ro() == Seq::new(total, |i: int| p as u32)
    &&& forall|g: int| 0 <= g < total ==> #[trigger] pres.pw(g) == Seq::<Term>::empty()
    &&& forall|a: int, b: int|
        0 <= b < a < total ==> #[trigger] pres.cm(a, b) == unipotent_word(n, r, p, poly, 0, a as nat, b as nat)
}

/// A generator index below `np r` splits into a pair position below `np` and a basis exponent.
pub(crate) proof fn lemma_split(x: int, r: int, np: int)
    requires
        0 <= x < np * r,
        r > 0,
    ensures
        x == r * (x / r) + x % r,
        0 <= x % r < r,
        0 <= x / r < np,
{
    vstd::arithmetic::div_mod::lemma_fundamental_div_mod(x, r);
    vstd::arithmetic::div_mod::lemma_mod_bound(x, r);
    let q = x / r;
    let m = x % r;
    assert(0 <= q < np) by (nonlinear_arith)
        requires
            x == r * q + m,
            0 <= m < r,
            0 <= x < np * r,
    ;
}

/// Generators of an earlier pair come first, and a pair below `np` has its block below `np r`.
pub(crate) proof fn lemma_block(k: int, l: int, t: int, np: int, r: int)
    requires
        0 <= k < t < np,
        0 <= l < r,
    ensures
        k * r + l < t * r,
        r * k + l < t * r,
        t * r + r <= np * r,
{
    assert(k * r + l < t * r && r * k + l < t * r && t * r + r <= np * r) by (nonlinear_arith)
        requires
            0 <= k < t < np,
            0 <= l < r,
    ;
}

/// The word of the commutator of the local generators `a > b` of `U(n, q)`, shifted by
/// `offset`: see [`unipotent_word`].
#[verifier::spinoff_prover]
#[verifier::rlimit(40)]
pub(crate) fn unipotent_commutator(
    n: usize,
    r: usize,
    offset: usize,
    field: &FiniteField,
    a: usize,
    b: usize,
) -> (w: Word)
    requires
        field.wf(),
        field.r == r,
        r < 32,
        n * n <= usize::MAX,
        b < a < num_pairs(n as nat) * r,
        offset + num_pairs(n as nat) * r <= usize::MAX,
    ensures
        w.terms@ == unipotent_word(n as nat, r as nat, field.p as nat, field.poly@, offset as nat, a as nat, b as nat),
        forall|t: int|
            0 <= t < w.terms@.len() ==> offset + b < (#[trigger] w.terms@[t]).gen_index < offset + num_pairs(n as nat)
                * r,
{
    let ghost np = num_pairs(n as nat) as int;
    proof {
        lemma_split(b as int, r as int, np);
        lemma_split(a as int, r as int, np);
        assert(pair_base(n as nat, 1) == 0);
        assert(pair_base(0, 0) == 0);
        assert(n >= 1);
        lemma_pair_base_mono(n as nat, 1, n as nat);
        lemma_decode(n as nat, (b / r) as nat, 1);
        lemma_decode(n as nat, (a / r) as nat, 1);
    }
    let kb = b / r;
    let l1 = b % r;
    let ka = a / r;
    let l2 = a % r;
    let (i1, j1) = unipotent_decode(n, kb);
    let (i2, j2) = unipotent_decode(n, ka);
    if j1 == i2 {
        let t = unipotent_pair_index(n, i1, j2);
        proof {
            lemma_pair_order(n as nat, i1 as nat, j1 as nat, i1 as nat, j2 as nat);
            lemma_block(kb as int, l1 as int, t as int, np, r as int);
        }
        let prod = field.basis_product(l1, l2);
        let base = offset + t * r;
        let w = scaled_word(&prod, base, r, field.p, true);
        proof {
            lemma_scaled_terms(prod@, base as nat, r as nat, field.p as nat, true);
        }
        w
    } else if j2 == i1 {
        let t = unipotent_pair_index(n, i2, j1);
        proof {
            lemma_pair_order(n as nat, i1 as nat, j1 as nat, i2 as nat, j1 as nat);
            lemma_block(kb as int, l1 as int, t as int, np, r as int);
        }
        let prod = field.basis_product(l2, l1);
        let base = offset + t * r;
        let w = scaled_word(&prod, base, r, field.p, false);
        proof {
            lemma_scaled_terms(prod@, base as nat, r as nat, field.p as nat, false);
        }
        w
    } else {
        Word::identity()
    }
}

/// Constructs a PC presentation for the unipotent subgroup `U(n, q)` of `GL(n, q)`, `q = p^r`:
/// the unit upper-triangular `n x n` matrices over `F_q`, of order `q^(n (n - 1) / 2)`.
///
/// Each generator is an elementary matrix `I + x^l E_{i,j}`, `0 <= i < j < n`, `0 <= l < r`,
/// ordered by height `j - i`, then row `i`, then `l`; all have relative order `p` and trivial
/// powers, and the commutators are those of [`unipotent_word`]. `U(1, q)` is trivial.
pub fn unipotent(n: usize, p: u32, r: u32) -> (pres: Presentation)
    requires
        n >= 1,
        spec_is_prime(p as int),
        r >= 1,
        pow(p as int, r as nat) <= u32::MAX,
        n >= 2 ==> field_search_succeeds(p as nat, r as nat),
        n * n <= usize::MAX,
        num_pairs(n as nat) * r * (num_pairs(n as nat) * r - 1) <= usize::MAX,
    ensures
        pres.wf(),
        pres.is_pc(),
        n == 1 ==> pres.ro().len() == 0,
        n >= 2 ==> exists|poly: Seq<u32>, prim: Seq<u32>|
            #![trigger field_data(p as nat, r as nat, poly, prim)]
            field_data(p as nat, r as nat, poly, prim) && is_unipotent_presentation(pres, n as nat, p as nat, r as nat, poly),
{
    if n == 1 {
        let ro: Vec<u32> = Vec::new();
        let pws: Vec<Word> = Vec::new();
        let cms: Vec<Vec<Word>> = Vec::new();
        return assemble(ro, &pws, &cms);
    }
    let ru = r as usize;
    proof {
        crate::util::field::lemma_small_exponent(p as nat, r as nat);
    }
    let np = unipotent_pair_count(n);
    let ghost t = np * ru;
    proof {
        assert(t <= usize::MAX) by (nonlinear_arith)
            requires
                t * (t - 1) <= usize::MAX,
                t >= 0,
        ;
    }
    let total = np * ru;
    let field = FiniteField::new(p, ru);
    let ghost poly = field.poly@;
    let mut ro: Vec<u32> = Vec::new();
    let mut pws: Vec<Word> = Vec::new();
    let mut g: usize = 0;
    while g < total
        invariant
            g <= total,
            ro@ == Seq::new(g as nat, |i: int| p as u32),
            pws@.len() == g,
            forall|h: int| 0 <= h < g ==> (#[trigger] pws@[h]).terms@ == Seq::<Term>::empty(),
        decreases total - g,
    {
        ro.push(p);
        pws.push(Word::identity());
        g = g + 1;
        assert(ro@ =~= Seq::new(g as nat, |i: int| p as u32));
    }
    let mut cms: Vec<Vec<Word>> = Vec::new();
    let mut a: usize = 0;
    while a < total
        invariant
            a <= total,
            total == num_pairs(n as nat) * ru,
            field.wf(),
            field.p == p,
            field.r == ru,
            ru < 32,
            n * n <= usize::MAX,
            poly == field.poly@,
            cms@.len() == a,
            forall|x: int| 0 <= x < a ==> (#[trigger] cms@[x])@.len() == x,
            forall|x: int, y: int|
                0 <= y < x < a ==> #[trigger] cms@[x]@[y].terms@ == unipotent_word(
                    n as nat,
                    ru as nat,
                    p as nat,
                    poly,
                    0,
                    x as nat,
                    y as nat,
                ),
            forall|x: int, y: int, k: int|
                0 <= y < x < a && 0 <= k < cms@[x]@[y].terms@.len() ==> y < (#[trigger] cms@[x]@[y].terms@[k]).gen_index
                    < total,
        decreases total - a,
    {
        let mut row: Vec<Word> = Vec::new();
        let mut b: usize = 0;
        while b < a
            invariant
                b <= a < total,
                total == num_pairs(n as nat) * ru,
                field.wf(),
                field.p == p,
                field.r == ru,
                ru < 32,
                n * n <= usize::MAX,
                poly == field.poly@,
                row@.len() == b,
                forall|y: int|
                    0 <= y < b ==> #[trigger] row@[y].terms@ == unipotent_word(
                        n as nat,
                        ru as nat,
                        p as nat,
                        poly,
                        0,
                        a as nat,
                        y as nat,
                    ),
                forall|y: int, k: int|
                    0 <= y < b && 0 <= k < row@[y].terms@.len() ==> y < (#[trigger] row@[y].terms@[k]).gen_index < total,
            decreases a - b,
        {
            row.push(unipotent_commutator(n, ru, 0, &field, a, b));
            b = b + 1;
        }
        cms.push(row);
        proof {
            assert forall|x: int| 0 <= x < a + 1 implies (#[trigger] cms@[x])@.len() == x by {}
        }
        a = a + 1;
    }
    proof {
        assert forall|h: int| 0 <= h < total implies spec_is_prime(#[trigger] ro@[h] as int) by {}
    }
    let pres = assemble(ro, &pws, &cms);
    proof {
        assert(is_unipotent_presentation(pres, n as nat, p as nat, r as nat, poly));
    }
    pres
}

} // verus!
