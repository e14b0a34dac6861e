//! Solution sets of homogeneous linear systems over `F_p` and the row operations that keep them.
use vstd::arithmetic::div_mod::{
    lemma_add_mod_noop, lemma_fundamental_div_mod, lemma_mod_multiples_vanish, lemma_mod_twice, lemma_mul_mod_noop_left,
};
use vstd::prelude::*;

verus! {

/// The integer dot product `a_0 v_0 + ... + a_{k-1} v_{k-1}`.
pub open spec fn row_dot(a: Seq<u32>, v: Seq<u32>, k: nat) -> int
    decreases k,
{
    if k == 0 {
        0
    } else {
        row_dot(a, v, (k - 1) as nat) + a[k - 1] * v[k - 1]
    }
}

/// `v` solves the homogeneous system of the first `rows` rows of `m` (each of `cols` entries)
/// modulo `p`.
pub open spec fn in_kernel(m: Seq<Seq<u32>>, rows: nat, cols: nat, v: Seq<u32>, p: nat) -> bool {
    forall|r: int| 0 <= r < rows ==> #[trigger] row_dot(m[r], v, cols) % (p as int) == 0
}

/// The two systems have the same solutions.
pub open spec fn same_kernel(m1: Seq<Seq<u32>>, m2: Seq<Seq<u32>>, rows: nat, cols: nat, p: nat) -> bool {
    forall|v: Seq<u32>|
        v.len() == cols ==> (#[trigger] in_kernel(m1, rows, cols, v, p) <==> #[trigger] in_kernel(m2, rows, cols, v, p))
}

/// Congruences add up.
proof fn lemma_congruent_add(x1: int, y1: int, x2: int, y2: int, p: int)
    requires
        p > 0,
        x1 % p == y1 % p,
        x2 % p == y2 % p,
    ensures
        (x1 + x2) % p == (y1 + y2) % p,
{
    lemma_add_mod_noop(x1, x2, p);
    lemma_add_mod_noop(y1, y2, p);
}

/// Congruences survive a common factor.
proof fn lemma_congruent_mul(x: int, y: int, v: int, p: int)
    requires
        p > 0,
        x % p == y % p,
    ensures
        (x * v) % p == (y * v) % p,
{
    lemma_mul_mod_noop_left(x, v, p);
    lemma_mul_mod_noop_left(y, v, p);
}

/// A row congruent, entry by entry, to `alpha a + beta b` has the dot product congruent to
/// `alpha (a . v) + beta (b . v)`.
pub proof fn lemma_dot_combination(
    new: Seq<u32>,
    a: Seq<u32>,
    b: Seq<u32>,
    v: Seq<u32>,
    k: nat,
    alpha: int,
    beta: int,
    p: int,
)
    requires
        p > 0,
        forall|c: int| 0 <= c < k ==> (#[trigger] new[c] as int) % p == (alpha * a[c] + beta * b[c]) % p,
    ensures
        row_dot(new, v, k) % p == (alpha * row_dot(a, v, k) + beta * row_dot(b, v, k)) % p,
    decreases k,
{
    if k == 0 {
        assert(alpha * 0 + beta * 0 == 0) by (nonlinear_arith);
    } else {
        let j = k - 1;
        lemma_dot_combination(new, a, b, v, (k - 1) as nat, alpha, beta, p);
        let sn = row_dot(new, v, (k - 1) as nat);
        let sa = row_dot(a, v, (k - 1) as nat);
        let sb = row_dot(b, v, (k - 1) as nat);
        let w = alpha * a[j] + beta * b[j];
        assert((new[j] as int) % p == w % p);
        lemma_congruent_mul(new[j] as int, w, v[j] as int, p);
        lemma_congruent_add(sn, alpha * sa + beta * sb, new[j] * v[j], w * v[j], p);
        assert(alpha * sa + beta * sb + w * v[j] == alpha * (sa + a[j] * v[j]) + beta * (sb + b[j] * v[j]))
            by (nonlinear_arith)
            requires
                w == alpha * a[j] + beta * b[j],
        ;
    }
}

/// Only the products at `c1` and `c2` count when the others vanish.
pub proof fn lemma_dot_two(a: Seq<u32>, v: Seq<u32>, k: nat, c1: int, c2: int)
    requires
        c1 != c2,
        forall|c: int| 0 <= c < k && c != c1 && c != c2 ==> #[trigger] (a[c] * v[c]) == 0,
    ensures
        row_dot(a, v, k) == (if 0 <= c1 < k {
            a[c1] * v[c1]
        } else {
            0
        }) + (if 0 <= c2 < k {
            a[c2] * v[c2]
        } else {
            0
        }),
    decreases k,
{
    if k > 0 {
        lemma_dot_two(a, v, (k - 1) as nat, c1, c2);
        let j = k - 1;
        if j != c1 && j != c2 {
            assert(a[j] * v[j] == 0);
        }
    }
}

/// A row operation on one row: the new row `new_row` at position `j` is congruent to
/// `row_j - f row_i` for another row `i` that stays; the solutions are the same.
pub proof fn lemma_kernel_reduce(m1: Seq<Seq<u32>>, m2: Seq<Seq<u32>>, rows: nat, cols: nat, p: nat, i: int, j: int, f: int)
    requires
        p > 0,
        0 <= i < rows,
        0 <= j < rows,
        i != j,
        m1.len() == rows,
        m2.len() == rows,
        forall|r: int| 0 <= r < rows && r != j ==> #[trigger] m2[r] == m1[r],
        forall|c: int| 0 <= c < cols ==> (#[trigger] m2[j][c] as int) % (p as int) == (1 * m1[j][c] + (-f) * m1[i][c]) % (p as int),
    ensures
        same_kernel(m1, m2, rows, cols, p),
{
    let pp = p as int;
    assert forall|v: Seq<u32>| v.len() == cols implies (#[trigger] in_kernel(m1, rows, cols, v, p) <==> #[trigger] in_kernel(
        m2,
        rows,
        cols,
        v,
        p,
    )) by {
        lemma_dot_combination(m2[j], m1[j], m1[i], v, cols, 1, -f, pp);
        let dj = row_dot(m1[j], v, cols);
        let di = row_dot(m1[i], v, cols);
        let dn = row_dot(m2[j], v, cols);
        assert(m2[i] == m1[i]);
        if in_kernel(m1, rows, cols, v, p) {
            assert forall|r: int| 0 <= r < rows implies #[trigger] row_dot(m2[r], v, cols) % pp == 0 by {
                if r == j {
                    assert(dj % pp == 0 && di % pp == 0);
                    lemma_congruent_mul(di, 0, -f, pp);
                    lemma_congruent_add(dj, 0, di * (-f), 0 * (-f), pp);
                    assert(1 * dj + (-f) * di == dj + di * (-f)) by (nonlinear_arith);
                    assert(0int % pp == 0);
                } else {
                    assert(m2[r] == m1[r]);
                }
            }
        }
        if in_kernel(m2, rows, cols, v, p) {
            assert forall|r: int| 0 <= r < rows implies #[trigger] row_dot(m1[r], v, cols) % pp == 0 by {
                if r == j {
                    assert(row_dot(m2[i], v, cols) % pp == 0);
                    assert(dn % pp == 0 && di % pp == 0);
                    // dj = dn' + f di where dn' = dj - f di is congruent to dn
                    lemma_congruent_mul(di, 0, f, pp);
                    lemma_congruent_add(1 * dj + (-f) * di, dn, di * f, 0 * f, pp);
                    assert(1 * dj + (-f) * di + di * f == dj) by (nonlinear_arith);
                    assert((dn + 0 * f) % pp == 0) by {
                        assert(0 * f == 0);
                    }
                    lemma_mod_twice(1 * dj + (-f) * di, pp);
                } else {
                    assert(m2[r] == m1[r]);
                }
            }
        }
    }
}

/// Scaling a row by a unit `k` (`k u == 1` modulo `p`) keeps the solutions.
pub proof fn lemma_kernel_scale(m1: Seq<Seq<u32>>, m2: Seq<Seq<u32>>, rows: nat, cols: nat, p: nat, i: int, k: int, u: int)
    requires
        p > 0,
        0 <= i < rows,
        m1.len() == rows,
        m2.len() == rows,
        (k * u) % (p as int) == 1int % (p as int),
        forall|r: int| 0 <= r < rows && r != i ==> #[trigger] m2[r] == m1[r],
        forall|c: int| 0 <= c < cols ==> (#[trigger] m2[i][c] as int) % (p as int) == (k * m1[i][c] + 0 * m1[i][c]) % (p as int),
    ensures
        same_kernel(m1, m2, rows, cols, p),
{
    let pp = p as int;
    assert forall|v: Seq<u32>| v.len() == cols implies (#[trigger] in_kernel(m1, rows, cols, v, p) <==> #[trigger] in_kernel(
        m2,
        rows,
        cols,
        v,
        p,
    )) by {
        lemma_dot_combination(m2[i], m1[i], m1[i], v, cols, k, 0, pp);
        let d = row_dot(m1[i], v, cols);
        let dn = row_dot(m2[i], v, cols);
        assert(k * d + 0 * d == k * d) by (nonlinear_arith);
        if in_kernel(m1, rows, cols, v, p) {
            assert forall|r: int| 0 <= r < rows implies #[trigger] row_dot(m2[r], v, cols) % pp == 0 by {
                if r == i {
                    assert(d % pp == 0);
                    lemma_congruent_mul(d, 0, k, pp);
                    assert(d * k == k * d && 0 * k == 0) by (nonlinear_arith);
                    assert(0int % pp == 0);
                } else {
                    assert(m2[r] == m1[r]);
                }
            }
        }
        if in_kernel(m2, rows, cols, v, p) {
            assert forall|r: int| 0 <= r < rows implies #[trigger] row_dot(m1[r], v, cols) % pp == 0 by {
                if r == i {
                    assert(dn % pp == 0);
                    // d = u (k d) modulo p
                    lemma_congruent_mul(k * d, 0, u, pp);
                    lemma_congruent_mul(k * u, 1, d, pp);
                    assert((k * d) * u == (k * u) * d && 1 * d == d && 0 * u == 0) by (nonlinear_arith);
                    assert(0int % pp == 0);
                } else {
                    assert(m2[r] == m1[r]);
                }
            }
        }
    }
}

/// Exchanging two rows keeps the solutions.
pub proof fn lemma_kernel_swap(m1: Seq<Seq<u32>>, m2: Seq<Seq<u32>>, rows: nat, cols: nat, p: nat, i: int, j: int)
    requires
        0 <= i < rows,
        0 <= j < rows,
        m1.len() == rows,
        m2.len() == rows,
        m2[i] == m1[j],
        m2[j] == m1[i],
        forall|r: int| 0 <= r < rows && r != i && r != j ==> #[trigger] m2[r] == m1[r],
    ensures
        same_kernel(m1, m2, rows, cols, p),
{
    assert forall|v: Seq<u32>| v.len() == cols implies (#[trigger] in_kernel(m1, rows, cols, v, p) <==> #[trigger] in_kernel(
        m2,
        rows,
        cols,
        v,
        p,
    )) by {
        if in_kernel(m1, rows, cols, v, p) {
            assert forall|r: int| 0 <= r < rows implies #[trigger] row_dot(m2[r], v, cols) % (p as int) == 0 by {
                if r == i {
                    assert(row_dot(m1[j], v, cols) % (p as int) == 0);
                } else if r == j {
                    assert(row_dot(m1[i], v, cols) % (p as int) == 0);
                } else {
                    assert(m2[r] == m1[r]);
                }
            }
        }
        if in_kernel(m2, rows, cols, v, p) {
            assert forall|r: int| 0 <= r < rows implies #[trigger] row_dot(m1[r], v, cols) % (p as int) == 0 by {
                if r == i {
                    assert(row_dot(m2[j], v, cols) % (p as int) == 0);
                } else if r == j {
                    assert(row_dot(m2[i], v, cols) % (p as int) == 0);
                } else {
                    assert(m2[r] == m1[r]);
                }
            }
        }
    }
}

/// Having the same solutions is transitive.
pub proof fn lemma_same_kernel_trans(
    m1: Seq<Seq<u32>>,
    m2: Seq<Seq<u32>>,
    m3: Seq<Seq<u32>>,
    rows: nat,
    cols: nat,
    p: nat,
)
    requires
        same_kernel(m1, m2, rows, cols, p),
        same_kernel(m2, m3, rows, cols, p),
    ensures
        same_kernel(m1, m3, rows, cols, p),
{
    assert forall|v: Seq<u32>| v.len() == cols implies (#[trigger] in_kernel(m1, rows, cols, v, p) <==> #[trigger] in_kernel(
        m3,
        rows,
        cols,
        v,
        p,
    )) by {
        assert(in_kernel(m1, rows, cols, v, p) <==> in_kernel(m2, rows, cols, v, p));
        assert(in_kernel(m2, rows, cols, v, p) <==> in_kernel(m3, rows, cols, v, p));
    }
}

/// The entry `(a + p - (f b) % p) % p` of a reduced row is congruent to `a - f b`.
pub proof fn lemma_reduced_entry(a: int, b: int, f: int, p: int)
    requires
        p > 0,
    ensures
        ((a + p - (f * b) % p) % p) % p == (1 * a + (-f) * b) % p,
{
    lemma_mod_twice(a + p - (f * b) % p, p);
    lemma_fundamental_div_mod(f * b, p);
    let q = (f * b) / p;
    let t = (f * b) % p;
    assert(a + p - t == p * (q + 1) + (1 * a + (-f) * b)) by (nonlinear_arith)
        requires
            f * b == p * q + t,
    ;
    lemma_mod_multiples_vanish(q + 1, 1 * a + (-f) * b, p);
}

/// The entry `(a k) % p` of a scaled row is congruent to `k a`.
pub proof fn lemma_scaled_entry(a: int, k: int, p: int)
    requires
        p > 0,
    ensures
        ((a * k) % p) % p == (k * a + 0 * a) % p,
{
    lemma_mod_twice(a * k, p);
    assert(a * k == k * a + 0 * a) by (nonlinear_arith);
}

} // verus!
