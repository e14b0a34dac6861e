//! Exact arithmetic for finite-order monomial matrices over roots of unity.
//!
//! A monomial matrix has exactly one non-zero entry per row and per column. For an `e`-monomial
//! matrix all non-zero entries are `e`-th roots of unity `exp(2 pi i vals[i] / e)`, represented by
//! a permutation `perm` mapping row `i` to column `perm[i]` and the exponents `vals` in `Z/eZ`.
use vstd::prelude::*;

verus! {

/// A monomial matrix as a pair of its permutation and its root-of-unity exponents.
pub type MonoView = (Seq<usize>, Seq<u32>);

/// The identity of dimension `dim`.
pub open spec fn mono_id(dim: nat) -> MonoView {
    (Seq::new(dim, |i: int| i as usize), Seq::new(dim, |i: int| 0u32))
}

/// The product `a * b`: row `i` goes to column `b.perm[a.perm[i]]` with exponent
/// `a.vals[i] + b.vals[a.perm[i]]` modulo `e`.
pub open spec fn mono_compose(a: MonoView, b: MonoView, e: nat) -> MonoView {
    (
        Seq::new(a.0.len(), |i: int| b.0[a.0[i] as int]),
        Seq::new(a.0.len(), |i: int| ((a.1[i] + b.1[a.0[i] as int]) % (e as int)) as u32),
    )
}

/// The `k`-th power, as the `k`-fold product.
pub open spec fn mono_pow(a: MonoView, k: nat, e: nat) -> MonoView
    decreases k,
{
    if k == 0 {
        mono_id(a.0.len())
    } else {
        mono_compose(mono_pow(a, (k - 1) as nat, e), a, e)
    }
}

/// The matrix has dimension `dim`: its permutation maps into `0..dim` and its exponents are
/// reduced modulo `e > 0`.
pub open spec fn mono_valid(a: MonoView, dim: nat, e: nat) -> bool {
    &&& 0 < e <= u32::MAX
    &&& dim <= usize::MAX
    &&& a.0.len() == dim
    &&& a.1.len() == dim
    &&& forall|i: int| 0 <= i < dim ==> #[trigger] a.0[i] < dim
    &&& forall|i: int| 0 <= i < dim ==> #[trigger] a.1[i] < e
}

/// Some entry of `p` is `j`.
pub open spec fn hits(p: Seq<usize>, j: int) -> bool {
    exists|i: int| 0 <= i < p.len() && #[trigger] p[i] == j
}

/// The permutation is a bijection of `0..dim`.
pub open spec fn is_permutation(p: Seq<usize>) -> bool {
    &&& forall|i: int| 0 <= i < p.len() ==> #[trigger] p[i] < p.len()
    &&& forall|i: int, j: int| 0 <= i < j < p.len() ==> p[i] != p[j]
    &&& forall|j: int| 0 <= j < p.len() ==> #[trigger] hits(p, j)
}

/// The inverse `b` of the permutation `a`: `b[a[i]] = i`.
pub open spec fn inverse_perm_of(a: Seq<usize>, b: Seq<usize>) -> bool {
    &&& b.len() == a.len()
    &&& forall|i: int| 0 <= i < a.len() ==> #[trigger] b[a[i] as int] == i
}

/// The product of valid matrices is valid.
pub proof fn lemma_compose_valid(a: MonoView, b: MonoView, dim: nat, e: nat)
    requires
        mono_valid(a, dim, e),
        mono_valid(b, dim, e),
    ensures
        mono_valid(mono_compose(a, b, e), dim, e),
{
}

/// The product is associative.
pub proof fn lemma_compose_assoc(a: MonoView, b: MonoView, c: MonoView, dim: nat, e: nat)
    requires
        mono_valid(a, dim, e),
        mono_valid(b, dim, e),
        mono_valid(c, dim, e),
    ensures
        mono_compose(mono_compose(a, b, e), c, e) == mono_compose(a, mono_compose(b, c, e), e),
{
    let l = mono_compose(mono_compose(a, b, e), c, e);
    let r = mono_compose(a, mono_compose(b, c, e), e);
    assert forall|i: int| 0 <= i < dim implies l.1[i] == r.1[i] by {
        let x = a.1[i] as int;
        let y = b.1[a.0[i] as int] as int;
        let z = c.1[b.0[a.0[i] as int] as int] as int;
        let m = e as int;
        vstd::arithmetic::div_mod::lemma_add_mod_noop(x + y, z, m);
        vstd::arithmetic::div_mod::lemma_add_mod_noop(x, y + z, m);
        vstd::arithmetic::div_mod::lemma_mod_twice(x + y, m);
        vstd::arithmetic::div_mod::lemma_mod_twice(y + z, m);
        vstd::arithmetic::div_mod::lemma_small_mod(x as nat, e);
        vstd::arithmetic::div_mod::lemma_small_mod(z as nat, e);
        assert(((x + y) % m + z) % m == (x + y + z) % m);
        assert((x + (y + z) % m) % m == (x + (y + z)) % m);
    }
    assert(l.0 =~= r.0);
    assert(l.1 =~= r.1);
}

/// The identity is a two-sided unit.
pub proof fn lemma_compose_id(a: MonoView, dim: nat, e: nat)
    requires
        mono_valid(a, dim, e),
    ensures
        mono_compose(mono_id(dim), a, e) == a,
        mono_compose(a, mono_id(dim), e) == a,
{
    let l = mono_compose(mono_id(dim), a, e);
    let r = mono_compose(a, mono_id(dim), e);
    assert forall|i: int| 0 <= i < dim implies l.1[i] == a.1[i] && r.1[i] == a.1[i] by {
        vstd::arithmetic::div_mod::lemma_small_mod(a.1[i] as nat, e);
    }
    assert(l.0 =~= a.0);
    assert(l.1 =~= a.1);
    assert(r.0 =~= a.0);
    assert(r.1 =~= a.1);
}

/// Powers are valid, and `a^(m + n) = a^m a^n`.
pub proof fn lemma_pow_add(a: MonoView, m: nat, n: nat, dim: nat, e: nat)
    requires
        mono_valid(a, dim, e),
    ensures
        mono_valid(mono_pow(a, m, e), dim, e),
        mono_pow(a, m + n, e) == mono_compose(mono_pow(a, m, e), mono_pow(a, n, e), e),
    decreases m + n, n,
{
    if n == 0 {
        if m > 0 {
            lemma_pow_add(a, (m - 1) as nat, 0, dim, e);
            lemma_compose_valid(mono_pow(a, (m - 1) as nat, e), a, dim, e);
        }
        lemma_compose_id(mono_pow(a, m, e), dim, e);
    } else {
        lemma_pow_add(a, m, (n - 1) as nat, dim, e);
        lemma_pow_add(a, (n - 1) as nat, 0, dim, e);
        assert((m + n - 1) as nat == m + (n - 1) as nat);
        lemma_compose_assoc(mono_pow(a, m, e), mono_pow(a, (n - 1) as nat, e), a, dim, e);
    }
}

/// Powers of the square are even powers.
pub proof fn lemma_pow_square(a: MonoView, k: nat, dim: nat, e: nat)
    requires
        mono_valid(a, dim, e),
    ensures
        mono_pow(mono_compose(a, a, e), k, e) == mono_pow(a, 2 * k, e),
    decreases k,
{
    lemma_compose_valid(a, a, dim, e);
    if k > 0 {
        lemma_pow_square(a, (k - 1) as nat, dim, e);
        lemma_pow_add(a, (2 * (k - 1)) as nat, 2, dim, e);
        lemma_pow_add(a, 1, 1, dim, e);
        lemma_pow_add(a, 0, 1, dim, e);
        lemma_compose_id(a, dim, e);
        assert(mono_pow(a, 1, e) == a) by {
            lemma_compose_id(a, dim, e);
        }
        assert((2 * (k - 1)) as nat + 2 == 2 * k);
    }
}

/// The negation `(m - x) mod m` of a reduced `x` adds up to zero modulo `m`.
pub proof fn lemma_neg_mod(x: int, m: int)
    requires
        0 <= x < m,
    ensures
        0 <= (m - x) % m < m,
        (x + (m - x) % m) % m == 0,
        ((m - x) % m + x) % m == 0,
{
    vstd::arithmetic::div_mod::lemma_mod_self_0(m);
    if x == 0 {
        vstd::arithmetic::div_mod::lemma_small_mod(0, m as nat);
    } else {
        vstd::arithmetic::div_mod::lemma_small_mod((m - x) as nat, m as nat);
    }
}

/// The inverse permutation with negated exponents is a two-sided inverse.
pub proof fn lemma_inverse(a: MonoView, b: MonoView, dim: nat, e: nat)
    requires
        mono_valid(a, dim, e),
        is_permutation(a.0),
        inverse_perm_of(a.0, b.0),
        b.1.len() == dim,
        forall|i: int| 0 <= i < dim ==> #[trigger] b.1[a.0[i] as int] == ((e - a.1[i]) % (e as int)) as u32,
    ensures
        mono_valid(b, dim, e),
        mono_compose(a, b, e) == mono_id(dim),
        mono_compose(b, a, e) == mono_id(dim),
{
    assert forall|j: int| 0 <= j < dim implies #[trigger] b.0[j] < dim && b.1[j] < e && a.0[b.0[j] as int] == j by {
        assert(hits(a.0, j));
        let i = choose|i: int| 0 <= i < dim && #[trigger] a.0[i] == j;
        assert(b.0[a.0[i] as int] == i);
        lemma_neg_mod(a.1[i] as int, e as int);
        assert(b.1[a.0[i] as int] == ((e - a.1[i]) % (e as int)) as u32);
    }
    assert forall|j: int| 0 <= j < dim implies #[trigger] b.1[j] < e by {
        assert(b.0[j] < dim && a.0[b.0[j] as int] == j);
        let i = b.0[j] as int;
        lemma_neg_mod(a.1[i] as int, e as int);
        assert(b.1[a.0[i] as int] == ((e - a.1[i]) % (e as int)) as u32);
    }
    let l = mono_compose(a, b, e);
    let r = mono_compose(b, a, e);
    assert forall|i: int| 0 <= i < dim implies l.1[i] == 0 by {
        let x = a.1[i] as int;
        let m = e as int;
        let y = b.1[a.0[i] as int] as int;
        lemma_neg_mod(x, m);
        assert(y == (m - x) % m);
        assert((x + y) % m == 0);
    }
    assert forall|j: int| 0 <= j < dim implies r.1[j] == 0 by {
        let i = b.0[j] as int;
        assert(a.0[i] == j);
        let x = a.1[i] as int;
        let m = e as int;
        assert(b.1[a.0[i] as int] == ((e - a.1[i]) % m) as u32);
        let y = b.1[j] as int;
        lemma_neg_mod(x, m);
        assert(y == (m - x) % m);
        assert((y + x) % m == 0);
    }
    assert(l.0 =~= mono_id(dim).0);
    assert(l.1 =~= mono_id(dim).1);
    assert(r.0 =~= mono_id(dim).0);
    assert(r.1 =~= mono_id(dim).1);
}

/// The inverse matrix: column `j` comes from the row `i` with `perm[i] = j`, with the negated
/// exponent.
pub open spec fn mono_inv(a: MonoView, e: nat) -> MonoView {
    (
        Seq::new(a.0.len(), |j: int| (choose|i: int| 0 <= i < a.0.len() && a.0[i] == j) as usize),
        Seq::new(
            a.0.len(),
            |j: int|
                ((e - a.1[choose|i: int| 0 <= i < a.0.len() && a.0[i] == j]) % (e as int)) as u32,
        ),
    )
}

/// An inverse permutation with negated exponents is `mono_inv`.
pub proof fn lemma_mono_inv(a: MonoView, b: MonoView, dim: nat, e: nat)
    requires
        mono_valid(a, dim, e),
        is_permutation(a.0),
        inverse_perm_of(a.0, b.0),
        b.1.len() == dim,
        forall|i: int| 0 <= i < dim ==> #[trigger] b.1[a.0[i] as int] == ((e - a.1[i]) % (e as int)) as u32,
    ensures
        b == mono_inv(a, e),
{
    let c = mono_inv(a, e);
    assert forall|j: int| 0 <= j < dim implies b.0[j] == c.0[j] && b.1[j] == c.1[j] by {
        assert(hits(a.0, j));
        let i = choose|i: int| 0 <= i < a.0.len() && a.0[i] == j;
        let i0 = choose|i: int| 0 <= i < dim && #[trigger] a.0[i] == j;
        assert(b.0[a.0[i] as int] == i);
        if i != i0 {
            if i < i0 {
                assert(a.0[i] != a.0[i0]);
            } else {
                assert(a.0[i0] != a.0[i]);
            }
        }
    }
    assert(b.0 =~= c.0);
    assert(b.1 =~= c.1);
}

/// An `e`-monomial matrix whose non-zero entries are `e`-th roots of unity.
#[derive(Clone, Debug, PartialEq, Eq, Hash)]
pub struct MonomialMatrix {
    /// Permutation mapping row `i` to non-zero column `perm[i]`.
    pub perm: Vec<usize>,
    /// Root-of-unity phase exponents `vals[i]` representing entry `(i, perm[i]) = exp(2 pi i vals[i] / e)`.
    pub vals: Vec<u32>,
    /// Shared root-of-unity exponent `e`.
    pub e: u32,
}

impl MonomialMatrix {
    /// The permutation and exponents.
    pub open spec fn view(&self) -> MonoView {
        (self.perm@, self.vals@)
    }

    /// The matrix is a valid `e`-monomial matrix of its dimension.
    pub open spec fn valid(&self) -> bool {
        mono_valid(self.view(), self.perm@.len(), self.e as nat)
    }

    /// Constructs a new matrix from a column permutation, phase values, and root exponent `e`,
    /// reducing the phases modulo `e`.
    pub fn new(perm: Vec<usize>, vals: Vec<u32>, e: u32) -> (m: Self)
        requires
            perm@.len() == vals@.len(),
            e > 0,
        ensures
            m.perm@ == perm@,
            m.vals@ == Seq::new(vals@.len(), |i: int| vals@[i] % e),
            m.e == e,
    {
        let mut norm_vals: Vec<u32> = Vec::new();
        let mut i: usize = 0;
        while i < vals.len()
            invariant
                i <= vals@.len(),
                e > 0,
                norm_vals@ == Seq::new(i as nat, |k: int| vals@[k] % e),
            decreases vals@.len() - i,
        {
            norm_vals.push(vals[i] % e);
            i = i + 1;
            assert(norm_vals@ =~= Seq::new(i as nat, |k: int| vals@[k] % e));
        }
        MonomialMatrix { perm, vals: norm_vals, e }
    }

    /// Creates an identity `e`-monomial matrix of dimension `dim`.
    pub fn identity(dim: usize, e: u32) -> (m: Self)
        ensures
            m.view() == mono_id(dim as nat),
            m.e == e,
    {
        let mut perm: Vec<usize> = Vec::new();
        let mut vals: Vec<u32> = Vec::new();
        let mut i: usize = 0;
        while i < dim
            invariant
                i <= dim,
                perm@ == Seq::new(i as nat, |k: int| k as usize),
                vals@ == Seq::new(i as nat, |k: int| 0u32),
            decreases dim - i,
        {
            perm.push(i);
            vals.push(0);
            i = i + 1;
            assert(perm@ =~= Seq::new(i as nat, |k: int| k as usize));
            assert(vals@ =~= Seq::new(i as nat, |k: int| 0u32));
        }
        MonomialMatrix { perm, vals, e }
    }

    /// Creates a diagonal matrix with all diagonal entries `exp(2 pi i val / e)`.
    pub fn diagonal(dim: usize, val: u32, e: u32) -> (m: Self)
        requires
            e > 0,
        ensures
            m.perm@ == Seq::new(dim as nat, |i: int| i as usize),
            m.vals@ == Seq::new(dim as nat, |i: int| val % e),
            m.e == e,
    {
        let id = Self::identity(dim, e);
        let mut vals: Vec<u32> = Vec::new();
        let mut i: usize = 0;
        while i < dim
            invariant
                i <= dim,
                e > 0,
                vals@ == Seq::new(i as nat, |k: int| val % e),
            decreases dim - i,
        {
            vals.push(val % e);
            i = i + 1;
            assert(vals@ =~= Seq::new(i as nat, |k: int| val % e));
        }
        MonomialMatrix { perm: id.perm, vals, e }
    }

    /// Creates an `e`-monomial matrix from a permutation, with all non-zero entries one.
    pub fn from_perm(perm: &[usize], e: u32) -> (m: Self)
        ensures
            m.perm@ == perm@,
            m.vals@ == Seq::new(perm@.len(), |i: int| 0u32),
            m.e == e,
    {
        let mut p: Vec<usize> = Vec::new();
        let mut vals: Vec<u32> = Vec::new();
        let mut i: usize = 0;
        while i < perm.len()
            invariant
                i <= perm@.len(),
                p@ == perm@.take(i as int),
                vals@ == Seq::new(i as nat, |k: int| 0u32),
            decreases perm@.len() - i,
        {
            p.push(perm[i]);
            vals.push(0);
            i = i + 1;
            assert(p@ =~= perm@.take(i as int));
            assert(vals@ =~= Seq::new(i as nat, |k: int| 0u32));
        }
        assert(perm@.take(i as int) =~= perm@);
        MonomialMatrix { perm: p, vals, e }
    }

    /// Returns the dimension of the matrix.
    pub fn dim(&self) -> (d: usize)
        ensures
            d == self.perm@.len(),
    {
        self.perm.len()
    }

    /// Returns the root-of-unity exponent `e`.
    pub fn exponent(&self) -> (e: u32)
        ensures
            e == self.e,
    {
        self.e
    }

    /// Computes the product `self * other`.
    pub fn compose(&self, other: &Self) -> (m: Self)
        requires
            self.valid(),
            other.valid(),
            other.perm@.len() == self.perm@.len(),
            other.e == self.e,
            self.e <= 0x8000_0000,
        ensures
            m.view() == mono_compose(self.view(), other.view(), self.e as nat),
            m.e == self.e,
            m.valid(),
    {
        let dim = self.dim();
        let mut new_perm: Vec<usize> = Vec::new();
        let mut new_vals: Vec<u32> = Vec::new();
        let ghost target = mono_compose(self.view(), other.view(), self.e as nat);
        let mut i: usize = 0;
        while i < dim
            invariant
                i <= dim,
                dim == self.perm@.len(),
                self.valid(),
                other.valid(),
                other.perm@.len() == dim,
                other.e == self.e,
                self.e <= 0x8000_0000,
                target == mono_compose(self.view(), other.view(), self.e as nat),
                new_perm@ == target.0.take(i as int),
                new_vals@ == target.1.take(i as int),
            decreases dim - i,
        {
            let j = self.perm[i];
            new_perm.push(other.perm[j]);
            new_vals.push((self.vals[i] + other.vals[j]) % self.e);
            i = i + 1;
            assert(new_perm@ =~= target.0.take(i as int));
            assert(new_vals@ =~= target.1.take(i as int));
        }
        assert(target.0.take(i as int) =~= target.0);
        assert(target.1.take(i as int) =~= target.1);
        proof {
            lemma_compose_valid(self.view(), other.view(), dim as nat, self.e as nat);
        }
        MonomialMatrix { perm: new_perm, vals: new_vals, e: self.e }
    }

    /// Computes `self * other`, storing the result into `out`.
    pub fn compose_into(&self, other: &Self, out: &mut Self)
        requires
            self.valid(),
            other.valid(),
            other.perm@.len() == self.perm@.len(),
            old(out).perm@.len() == self.perm@.len(),
            old(out).vals@.len() == self.perm@.len(),
            other.e == self.e,
            self.e <= 0x8000_0000,
        ensures
            final(out).view() == mono_compose(self.view(), other.view(), self.e as nat),
            final(out).e == old(out).e,
    {
        let dim = self.dim();
        let ghost target = mono_compose(self.view(), other.view(), self.e as nat);
        let mut i: usize = 0;
        while i < dim
            invariant
                i <= dim,
                dim == self.perm@.len(),
                self.valid(),
                other.valid(),
                other.perm@.len() == dim,
                out.perm@.len() == dim,
                out.vals@.len() == dim,
                out.e == old(out).e,
                other.e == self.e,
                self.e <= 0x8000_0000,
                target == mono_compose(self.view(), other.view(), self.e as nat),
                forall|k: int| 0 <= k < i ==> out.perm@[k] == target.0[k] && out.vals@[k] == target.1[k],
            decreases dim - i,
        {
            let j = self.perm[i];
            out.perm.set(i, other.perm[j]);
            out.vals.set(i, (self.vals[i] + other.vals[j]) % self.e);
            i = i + 1;
        }
        assert(out.perm@ =~= target.0);
        assert(out.vals@ =~= target.1);
    }

    /// Computes the inverse matrix `self^-1`.
    pub fn invert(&self) -> (m: Self)
        requires
            self.valid(),
            is_permutation(self.perm@),
        ensures
            m.view() == mono_inv(self.view(), self.e as nat),
            m.e == self.e,
            m.valid(),
            mono_compose(self.view(), m.view(), self.e as nat) == mono_id(self.perm@.len()),
            mono_compose(m.view(), self.view(), self.e as nat) == mono_id(self.perm@.len()),
    {
        let dim = self.dim();
        let e = self.e;
        let mut inv_perm: Vec<usize> = vec![0; dim];
        let mut inv_vals: Vec<u32> = vec![0; dim];
        let mut i: usize = 0;
        while i < dim
            invariant
                i <= dim,
                dim == self.perm@.len(),
                e == self.e,
                self.valid(),
                is_permutation(self.perm@),
                inv_perm@.len() == dim,
                inv_vals@.len() == dim,
                forall|k: int|
                    0 <= k < i ==> #[trigger] inv_perm@[self.perm@[k] as int] == k && inv_vals@[self.perm@[k] as int]
                        == ((e - self.vals@[k]) % (e as int)) as u32,
            decreases dim - i,
        {
            let j = self.perm[i];
            inv_perm.set(j, i);
            inv_vals.set(j, (e - (self.vals[i] % e)) % e);
            proof {
                vstd::arithmetic::div_mod::lemma_small_mod(self.vals@[i as int] as nat, e as nat);
                assert(inv_perm@[self.perm@[i as int] as int] == i);
                assert(inv_vals@[self.perm@[i as int] as int] == ((e - self.vals@[i as int]) % (
                e as int)) as u32);
                assert forall|k: int| 0 <= k < i + 1 implies #[trigger] inv_perm@[self.perm@[k] as int] == k
                    && inv_vals@[self.perm@[k] as int] == ((e - self.vals@[k]) % (e as int)) as u32 by {
                    if k < i {
                        assert(self.perm@[k] != self.perm@[i as int]);
                    }
                }
            }
            i = i + 1;
        }
        let m = MonomialMatrix { perm: inv_perm, vals: inv_vals, e };
        proof {
            assert forall|k: int| 0 <= k < dim implies #[trigger] m.vals@[self.perm@[k] as int] == ((e
                - self.vals@[k]) % (e as int)) as u32 by {
                assert(inv_perm@[self.perm@[k] as int] == k);
            }
            assert forall|k: int| 0 <= k < dim implies #[trigger] m.perm@[self.perm@[k] as int] == k by {
                assert(inv_perm@[self.perm@[k] as int] == k);
            }
            lemma_inverse(self.view(), m.view(), dim as nat, e as nat);
            lemma_mono_inv(self.view(), m.view(), dim as nat, e as nat);
        }
        m
    }

    /// Writes the inverse permutation `i -> inv_perm[i]` into `out`.
    pub fn invert_perm_into(&self, out: &mut [usize])
        requires
            is_permutation(self.perm@),
            old(out)@.len() >= self.perm@.len(),
        ensures
            final(out)@.len() == old(out)@.len(),
            forall|i: int| 0 <= i < self.perm@.len() ==> #[trigger] final(out)@[self.perm@[i] as int] == i,
            forall|k: int| self.perm@.len() <= k < old(out)@.len() ==> final(out)@[k] == old(out)@[k],
    {
        let dim = self.perm.len();
        let mut i: usize = 0;
        while i < dim
            invariant
                i <= dim,
                dim == self.perm@.len(),
                is_permutation(self.perm@),
                out@.len() == old(out)@.len(),
                out@.len() >= dim,
                forall|k: int| 0 <= k < i ==> #[trigger] out@[self.perm@[k] as int] == k,
                forall|k: int| dim <= k < out@.len() ==> out@[k] == old(out)@[k],
            decreases dim - i,
        {
            let j = self.perm[i];
            out[j] = i;
            proof {
                assert forall|k: int| 0 <= k < i + 1 implies #[trigger] out@[self.perm@[k] as int] == k by {
                    if k < i {
                        assert(self.perm@[k] != self.perm@[i as int]);
                    }
                }
            }
            i = i + 1;
        }
    }

    /// Returns the inverse permutation vector `i -> inv_perm[i]`.
    pub fn inv_perm(&self) -> (inv: Vec<usize>)
        requires
            is_permutation(self.perm@),
        ensures
            inverse_perm_of(self.perm@, inv@),
    {
        let mut inv: Vec<usize> = vec![0; self.dim()];
        self.invert_perm_into(inv.as_mut_slice());
        inv
    }

    /// A copy of the matrix.
    pub fn duplicate(&self) -> (m: Self)
        ensures
            m.view() == self.view(),
            m.e == self.e,
    {
        MonomialMatrix { perm: self.perm.clone(), vals: self.vals.clone(), e: self.e }
    }

    /// Computes the matrix power `self^p` for any integer `p` using binary exponentiation;
    /// negative powers are powers of the inverse.
    pub fn pow(&self, p: i64) -> (m: Self)
        requires
            self.valid(),
            self.e <= 0x8000_0000,
            p < 0 ==> is_permutation(self.perm@),
            p != i64::MIN,
        ensures
            m.e == self.e,
            m.valid(),
            p >= 0 ==> m.view() == mono_pow(self.view(), p as nat, self.e as nat),
            p < 0 ==> m.view() == mono_pow(mono_inv(self.view(), self.e as nat), (-p) as nat, self.e as nat),
    {
        let dim = self.dim();
        let ghost e = self.e as nat;
        if p == 0 {
            return Self::identity(dim, self.e);
        }
        let mut q = p;
        let base = if p < 0 {
            q = -p;
            self.invert()
        } else {
            self.duplicate()
        };
        let ghost b = base.view();
        let ghost total = q as nat;
        let mut result = Self::identity(dim, self.e);
        let mut factor = base;
        let mut exp = q as u64;
        proof {
            lemma_compose_id(b, dim as nat, e);
            assert(mono_pow(b, 0, e) == mono_id(dim as nat));
            assert(mono_pow(b, 1, e) == b);
            lemma_pow_add(b, 0, total, dim as nat, e);
        }
        while exp > 0
            invariant
                dim == self.perm@.len(),
                e == self.e,
                e <= 0x8000_0000,
                mono_valid(b, dim as nat, e),
                result.valid(),
                factor.valid(),
                result.perm@.len() == dim,
                factor.perm@.len() == dim,
                result.e == self.e,
                factor.e == self.e,
                mono_compose(result.view(), mono_pow(factor.view(), exp as nat, e), e) == mono_pow(
                    b,
                    total,
                    e,
                ),
            decreases exp,
        {
            let ghost r0 = result.view();
            let ghost f0 = factor.view();
            let ghost h = (exp / 2) as nat;
            proof {
                assert(exp & 1 == exp % 2) by (bit_vector);
                assert(exp >> 1 == exp / 2) by (bit_vector);
                lemma_pow_add(f0, 0, 1, dim as nat, e);
                lemma_compose_id(f0, dim as nat, e);
                lemma_pow_square(f0, h, dim as nat, e);
                lemma_pow_add(f0, 1, 2 * h, dim as nat, e);
                lemma_pow_add(f0, 2 * h, 0, dim as nat, e);
                lemma_compose_valid(f0, f0, dim as nat, e);
                lemma_pow_add(mono_compose(f0, f0, e), h, 0, dim as nat, e);
                if exp % 2 == 1 {
                    lemma_compose_assoc(r0, f0, mono_pow(f0, 2 * h, e), dim as nat, e);
                    assert(exp as nat == 1 + 2 * h);
                } else {
                    assert(exp as nat == 2 * h);
                }
            }
            if exp & 1 == 1 {
                result = result.compose(&factor);
            }
            if exp > 1 {
                factor = factor.compose(&factor);
            } else {
                proof {
                    assert(mono_pow(f0, 0, e) == mono_id(dim as nat));
                }
            }
            exp = exp >> 1;
        }
        proof {
            lemma_compose_id(result.view(), dim as nat, e);
            if p < 0 {
                assert(b == mono_inv(self.view(), e));
            }
        }
        result
    }

    /// The block diagonal matrix `diag(self, other)`.
    pub fn direct_sum(&self, other: &Self) -> (m: Self)
        requires
            self.perm@.len() + other.perm@.len() <= usize::MAX,
            forall|i: int| 0 <= i < other.perm@.len() ==> other.perm@[i] + self.perm@.len() <= usize::MAX,
        ensures
            m.perm@ == self.perm@ + Seq::new(
                other.perm@.len(),
                |i: int| (other.perm@[i] + self.perm@.len()) as usize,
            ),
            m.vals@ == self.vals@ + other.vals@,
            m.e == self.e,
    {
        let dim1 = self.dim();
        let mut new_perm: Vec<usize> = self.perm.clone();
        let mut i: usize = 0;
        while i < other.perm.len()
            invariant
                i <= other.perm@.len(),
                dim1 == self.perm@.len(),
                forall|k: int| 0 <= k < other.perm@.len() ==> other.perm@[k] + dim1 <= usize::MAX,
                new_perm@ == self.perm@ + Seq::new(i as nat, |k: int| (other.perm@[k] + dim1) as usize),
            decreases other.perm@.len() - i,
        {
            new_perm.push(other.perm[i] + dim1);
            i = i + 1;
            assert(new_perm@ =~= self.perm@ + Seq::new(
                i as nat,
                |k: int| (other.perm@[k] + dim1) as usize,
            ));
        }
        let mut new_vals: Vec<u32> = self.vals.clone();
        let mut other_vals: Vec<u32> = other.vals.clone();
        new_vals.append(&mut other_vals);
        MonomialMatrix { perm: new_perm, vals: new_vals, e: self.e }
    }

    /// Multiplies the matrix by the scalar root of unity `exp(2 pi i scalar / e)`.
    pub fn scalar_mul(&self, scalar: u32) -> (m: Self)
        requires
            self.e > 0,
            forall|i: int| 0 <= i < self.vals@.len() ==> self.vals@[i] + scalar % self.e <= u32::MAX,
        ensures
            m.perm@ == self.perm@,
            m.vals@ == Seq::new(
                self.vals@.len(),
                |i: int| ((self.vals@[i] + scalar % self.e) % (self.e as int)) as u32,
            ),
            m.e == self.e,
    {
        let norm_s = scalar % self.e;
        let mut vals: Vec<u32> = Vec::new();
        let mut i: usize = 0;
        while i < self.vals.len()
            invariant
                i <= self.vals@.len(),
                self.e > 0,
                norm_s == scalar % self.e,
                forall|k: int| 0 <= k < self.vals@.len() ==> self.vals@[k] + scalar % self.e <= u32::MAX,
                vals@ == Seq::new(
                    i as nat,
                    |k: int| ((self.vals@[k] + scalar % self.e) % (self.e as int)) as u32,
                ),
            decreases self.vals@.len() - i,
        {
            vals.push((self.vals[i] + norm_s) % self.e);
            i = i + 1;
            assert(vals@ =~= Seq::new(
                i as nat,
                |k: int| ((self.vals@[k] + scalar % self.e) % (self.e as int)) as u32,
            ));
        }
        MonomialMatrix { perm: self.perm.clone(), vals, e: self.e }
    }
}

} // verus!
