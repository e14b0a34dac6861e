//! Linear algebra over the prime field `F_p`: matrices, row reduction, subspaces in echelon form
//! and composition series of modules given by matrices.
use vstd::prelude::*;

use crate::util::linalg::kernel::{
    in_kernel, lemma_dot_two, lemma_kernel_reduce, lemma_kernel_scale, lemma_kernel_swap, lemma_reduced_entry, lemma_same_kernel_trans,
    lemma_scaled_entry, same_kernel,
};
use crate::util::ntheory::{lemma_gcd_prime, mod_inverse, spec_is_prime};

verus! {

/// `n` zeros.
fn zero_row(n: usize) -> (v: Vec<u32>)
    ensures
        v@ == Seq::new(n as nat, |i: int| 0u32),
{
    let mut v: Vec<u32> = Vec::new();
    let mut i: usize = 0;
    while i < n
        invariant
            i <= n,
            v@ == Seq::new(i as nat, |k: int| 0u32),
        decreases n - i,
    {
        v.push(0);
        i = i + 1;
        assert(v@ =~= Seq::new(i as nat, |k: int| 0u32));
    }
    v
}

/// The rows of a matrix as sequences.
pub open spec fn rows_of(data: Seq<Vec<u32>>) -> Seq<Seq<u32>> {
    data.map_values(|r: Vec<u32>| r@)
}

/// A `rows x cols` table whose entries lie in `0..p`.
pub open spec fn is_table(m: Seq<Seq<u32>>, rows: nat, cols: nat, p: nat) -> bool {
    &&& m.len() == rows
    &&& forall|r: int| 0 <= r < rows ==> (#[trigger] m[r]).len() == cols
    &&& forall|r: int, c: int| 0 <= r < rows && 0 <= c < cols ==> #[trigger] m[r][c] < p
}

/// The running sum `(..((a_0 b_0) + a_1 b_1) % p + ...) % p` of the first `k` products, reduced
/// at every step.
pub open spec fn dot_acc(a: Seq<u32>, b: Seq<u32>, k: nat, p: nat) -> nat
    decreases k,
{
    if k == 0 {
        0
    } else {
        ((dot_acc(a, b, (k - 1) as nat, p) + a[k - 1] * b[k - 1]) % (p as int)) as nat
    }
}

/// The column `c` of a table.
pub open spec fn column(m: Seq<Seq<u32>>, c: int) -> Seq<u32> {
    Seq::new(m.len(), |r: int| m[r][c])
}


/// A copy of a row.
fn copy_row(row: &Vec<u32>) -> (out: Vec<u32>)
    ensures
        out@ == row@,
{
    let mut out: Vec<u32> = Vec::new();
    let mut i: usize = 0;
    while i < row.len()
        invariant
            i <= row@.len(),
            out@ == row@.take(i as int),
        decreases row@.len() - i,
    {
        out.push(row[i]);
        i = i + 1;
        assert(out@ =~= row@.take(i as int));
    }
    assert(row@.take(row@.len() as int) =~= row@);
    out
}

/// The row multiplied by `k` modulo `p`.
fn scaled_row(row: &Vec<u32>, k: u32, p: u32) -> (out: Vec<u32>)
    requires
        p > 0,
    ensures
        out@.len() == row@.len(),
        forall|c: int| 0 <= c < row@.len() ==> #[trigger] out@[c] == (row@[c] * k) % (p as int),
{
    let mut out: Vec<u32> = Vec::new();
    let mut i: usize = 0;
    while i < row.len()
        invariant
            i <= row@.len(),
            p > 0,
            out@.len() == i,
            forall|c: int| 0 <= c < i ==> #[trigger] out@[c] == (row@[c] * k) % (p as int),
        decreases row@.len() - i,
    {
        let x = row[i] as u64;
        proof {
            assert(x * (k as u64) <= 0xffff_fffe_0000_0001u64) by (nonlinear_arith)
                requires
                    x <= 0xffff_ffffu64,
                    k <= 0xffff_ffffu32,
            ;
        }
        out.push(((x * (k as u64)) % (p as u64)) as u32);
        i = i + 1;
    }
    out
}

/// The row minus `f` times `piv`, entrywise modulo `p`.
fn reduced_row(row: &Vec<u32>, piv: &Vec<u32>, f: u32, p: u32) -> (out: Vec<u32>)
    requires
        p > 0,
        row@.len() == piv@.len(),
    ensures
        out@.len() == row@.len(),
        forall|c: int| 0 <= c < row@.len() ==> #[trigger] out@[c] == (row@[c] + p - (f * piv@[c]) % (
        p as int)) % (p as int),
{
    let mut out: Vec<u32> = Vec::new();
    let mut i: usize = 0;
    while i < row.len()
        invariant
            i <= row@.len(),
            p > 0,
            row@.len() == piv@.len(),
            out@.len() == i,
            forall|c: int| 0 <= c < i ==> #[trigger] out@[c] == (row@[c] + p - (f * piv@[c]) % (
            p as int)) % (p as int),
        decreases row@.len() - i,
    {
        let y = piv[i] as u64;
        proof {
            assert((f as u64) * y <= 0xffff_fffe_0000_0001u64) by (nonlinear_arith)
                requires
                    y <= 0xffff_ffffu64,
                    f <= 0xffff_ffffu32,
            ;
        }
        let sub = ((f as u64) * y) % (p as u64);
        out.push(((row[i] as u64 + p as u64 - sub) % (p as u64)) as u32);
        i = i + 1;
    }
    out
}

/// Arithmetic facts used by row reduction.
proof fn lemma_reduce_facts(x: int, f: int, p: int)
    requires
        0 <= x < p,
        0 <= f,
    ensures
        (x + p - (f * 0) % p) % p == x,
        (x + p - (x * 1) % p) % p == 0,
        (0 * f) % p == 0,
        (x * 0) % p == 0,
{
    assert(f * 0 == 0 && 0 * f == 0 && x * 0 == 0) by (nonlinear_arith);
    assert(0int % p == 0) by (nonlinear_arith)
        requires
            p > 0,
    ;
    assert((x + p) % p == x) by (nonlinear_arith)
        requires
            0 <= x < p,
    ;
    assert(p % p == 0) by (nonlinear_arith)
        requires
            0 < p,
    ;
    assert((x * 1) % p == x) by (nonlinear_arith)
        requires
            0 <= x < p,
    ;
}

/// The table is in reduced row echelon form with pivot columns `pc`: the pivot columns
/// increase, row `i` starts with a one in column `pc[i]`, every other row is zero in that
/// column, and the rows below the pivots are zero.
pub open spec fn is_rref(m: Seq<Seq<u32>>, rows: nat, cols: nat, pc: Seq<usize>) -> bool {
    &&& pc.len() <= rows
    &&& forall|i: int, j: int| 0 <= i < j < pc.len() ==> #[trigger] pc[i] < #[trigger] pc[j]
    &&& forall|i: int| 0 <= i < pc.len() ==> #[trigger] pc[i] < cols
    &&& forall|i: int| 0 <= i < pc.len() ==> #[trigger] m[i][pc[i] as int] == 1
    &&& forall|i: int, j: int|
        0 <= i < pc.len() && 0 <= j < rows && j != i ==> #[trigger] m[j][pc[i] as int] == 0
    &&& forall|i: int, c: int| 0 <= i < pc.len() && 0 <= c < pc[i] ==> #[trigger] m[i][c] == 0
    &&& forall|j: int, c: int| pc.len() <= j < rows && 0 <= c < cols ==> #[trigger] m[j][c] == 0
}

/// A null vector of an echelon table read off at the free column `f`: one at `f`, the negated
/// entries of column `f` at the pivot columns, zero elsewhere.
pub open spec fn is_null_vector(v: Seq<u32>, m: Seq<Seq<u32>>, pc: Seq<usize>, f: int, cols: nat, p: nat) -> bool {
    &&& v.len() == cols
    &&& v[f] == 1
    &&& forall|i: int| 0 <= i < pc.len() ==> #[trigger] v[pc[i] as int] == ((p - (m[i][f] as int) % (p as int)) % (p as int))
    &&& forall|c: int| 0 <= c < cols && c != f && !pc.contains(c as usize) ==> #[trigger] v[c] == 0
}

/// `ns` lists the null vectors of the echelon table `m` (pivot columns `pc`) at the free columns
/// `fr`, which are the columns outside `pc` in increasing order.
pub open spec fn is_nullspace_basis(
    ns: Seq<Seq<u32>>,
    m: Seq<Seq<u32>>,
    pc: Seq<usize>,
    fr: Seq<int>,
    rows: nat,
    cols: nat,
    p: nat,
) -> bool {
    &&& is_rref(m, rows, cols, pc)
    &&& is_table(m, rows, cols, p)
    &&& forall|a: int, b: int| 0 <= a < b < fr.len() ==> #[trigger] fr[a] < #[trigger] fr[b]
    &&& forall|k: int| 0 <= k < fr.len() ==> 0 <= #[trigger] fr[k] < cols && !pc.contains(fr[k] as usize)
    &&& forall|c: int| 0 <= c < cols && !pc.contains(c as usize) ==> #[trigger] fr.contains(c)
    &&& ns.len() == fr.len()
    &&& forall|k: int| 0 <= k < ns.len() ==> #[trigger] is_null_vector(ns[k], m, pc, fr[k], cols, p)
}

/// A null vector read off an echelon table solves its system.
proof fn lemma_null_vector_kernel(v: Seq<u32>, m: Seq<Seq<u32>>, pc: Seq<usize>, f: int, rows: nat, cols: nat, p: nat)
    requires
        is_rref(m, rows, cols, pc),
        is_table(m, rows, cols, p),
        p > 0,
        cols <= usize::MAX,
        0 <= f < cols,
        !pc.contains(f as usize),
        is_null_vector(v, m, pc, f, cols, p),
    ensures
        in_kernel(m, rows, cols, v, p),
{
    let pp = p as int;
    assert forall|r: int| 0 <= r < rows implies #[trigger] crate::util::linalg::kernel::row_dot(m[r], v, cols) % pp == 0 by {
        if r < pc.len() {
            let c2 = pc[r] as int;
            assert(c2 != f) by {
                assert(pc.contains(pc[r]));
            }
            assert forall|c: int| 0 <= c < cols && c != f && c != c2 implies #[trigger] (m[r][c] * v[c]) == 0 by {
                let a = m[r][c];
                let b = v[c];
                assert((c as usize) as int == c);
                if pc.contains(c as usize) {
                    let k = choose|k: int| 0 <= k < pc.len() && pc[k] == c as usize;
                    assert(pc[k] as int == c);
                    assert(k != r);
                    assert(m[r][pc[k] as int] == 0);
                    assert(a == 0);
                } else {
                    assert(b == 0);
                }
                assert(a * b == 0) by (nonlinear_arith)
                    requires
                        a == 0 || b == 0,
                ;
            }
            lemma_dot_two(m[r], v, cols, f, c2);
            let x = m[r][f] as int;
            assert(x < pp);
            assert(m[r][c2] == 1);
            assert(v[f] == 1);
            assert(v[c2] as int == (pp - x % pp) % pp);
            assert((x * 1 + 1 * ((pp - x % pp) % pp)) % pp == 0) by (nonlinear_arith)
                requires
                    0 <= x < pp,
            ;
        } else {
            assert forall|c: int| 0 <= c < cols && c != -1 && c != -2 implies #[trigger] (m[r][c] * v[c]) == 0 by {
                let a = m[r][c];
                let b = v[c];
                assert(a == 0);
                assert(a * b == 0) by (nonlinear_arith)
                    requires
                        a == 0,
                ;
            }
            lemma_dot_two(m[r], v, cols, -1, -2);
            assert(0int % pp == 0);
        }
    }
}

/// A matrix over `F_p`, stored row by row.
#[derive(Debug, Clone, PartialEq, Eq)]
pub struct ModularMatrix {
    pub data: Vec<Vec<u32>>,
    pub p: u32,
    pub rows: usize,
    pub cols: usize,
}

impl ModularMatrix {
    /// The entries, row by row.
    pub open spec fn entries(&self) -> Seq<Seq<u32>> {
        rows_of(self.data@)
    }

    /// The entry in row `r` and column `c`.
    pub open spec fn at(&self, r: int, c: int) -> u32 {
        self.data@[r]@[c]
    }

    /// The shape matches `rows x cols`, the modulus is positive and every entry is reduced.
    pub open spec fn wf(&self) -> bool {
        &&& self.p > 0
        &&& self.data@.len() == self.rows
        &&& forall|r: int| 0 <= r < self.rows ==> (#[trigger] self.data@[r])@.len() == self.cols
        &&& forall|r: int, c: int| 0 <= r < self.rows && 0 <= c < self.cols ==> #[trigger] self.at(r, c) < self.p
    }

    /// Creates a `rows x cols` matrix of zeros.
    pub fn zeros(rows: usize, cols: usize, p: u32) -> (m: Self)
        ensures
            m.rows == rows,
            m.cols == cols,
            m.p == p,
            m.data@.len() == rows,
            forall|r: int| 0 <= r < rows ==> (#[trigger] m.data@[r])@.len() == cols,
            forall|r: int, c: int| 0 <= r < rows && 0 <= c < cols ==> #[trigger] m.at(r, c) == 0,
            p > 0 ==> m.wf(),
    {
        let mut data: Vec<Vec<u32>> = Vec::new();
        let mut r: usize = 0;
        while r < rows
            invariant
                r <= rows,
                data@.len() == r,
                forall|k: int| 0 <= k < r ==> (#[trigger] data@[k])@ == Seq::new(cols as nat, |i: int| 0u32),
            decreases rows - r,
        {
            data.push(zero_row(cols));
            r = r + 1;
        }
        ModularMatrix { data, p, rows, cols }
    }

    /// Creates the `n x n` identity matrix over `F_p`.
    pub fn identity(n: usize, p: u32) -> (m: Self)
        requires
            p > 0,
        ensures
            m.wf(),
            m.rows == n,
            m.cols == n,
            m.p == p,
            forall|r: int, c: int| 0 <= r < n && 0 <= c < n ==> #[trigger] m.at(r, c) == if r == c {
                1u32 % p
            } else {
                0u32
            },
    {
        let mut data: Vec<Vec<u32>> = Vec::new();
        let mut r: usize = 0;
        while r < n
            invariant
                r <= n,
                p > 0,
                data@.len() == r,
                forall|k: int| 0 <= k < r ==> (#[trigger] data@[k])@.len() == n,
                forall|k: int, c: int| 0 <= k < r && 0 <= c < n ==> #[trigger] data@[k]@[c] == if k == c {
                    1u32 % p
                } else {
                    0u32
                },
            decreases n - r,
        {
            let mut row = zero_row(n);
            row.set(r, 1 % p);
            data.push(row);
            r = r + 1;
        }
        ModularMatrix { data, p, rows: n, cols: n }
    }

    /// Creates a matrix from column vectors, reducing entries modulo `p`. The number of rows is
    /// the length of the first column; shorter columns are padded with zeros.
    pub fn from_columns(cols: &[Vec<u32>], p: u32) -> (m: Self)
        requires
            p > 0,
            forall|c: int| 0 <= c < cols@.len() ==> (#[trigger] cols@[c])@.len() <= cols@[0]@.len(),
        ensures
            m.wf(),
            m.p == p,
            m.cols == cols@.len(),
            m.rows == if cols@.len() > 0 {
                cols@[0]@.len()
            } else {
                0
            },
            forall|r: int, c: int| 0 <= r < m.rows && 0 <= c < m.cols ==> #[trigger] m.at(r, c) == if r
                < cols@[c]@.len() {
                cols@[c]@[r] % p
            } else {
                0
            },
    {
        let num_cols = cols.len();
        let num_rows = if num_cols > 0 {
            cols[0].len()
        } else {
            0
        };
        let mut data: Vec<Vec<u32>> = Vec::new();
        let mut r: usize = 0;
        while r < num_rows
            invariant
                r <= num_rows,
                p > 0,
                num_cols == cols@.len(),
                data@.len() == r,
                forall|k: int| 0 <= k < r ==> (#[trigger] data@[k])@.len() == num_cols,
                forall|k: int, c: int| 0 <= k < r && 0 <= c < num_cols ==> #[trigger] data@[k]@[c] == if k
                    < cols@[c]@.len() {
                    cols@[c]@[k] % p
                } else {
                    0
                },
            decreases num_rows - r,
        {
            let mut row: Vec<u32> = Vec::new();
            let mut c: usize = 0;
            while c < num_cols
                invariant
                    c <= num_cols,
                    p > 0,
                    num_cols == cols@.len(),
                    row@.len() == c,
                    forall|j: int| 0 <= j < c ==> #[trigger] row@[j] == if r < cols@[j]@.len() {
                        cols@[j]@[r as int] % p
                    } else {
                        0
                    },
                decreases num_cols - c,
            {
                if r < cols[c].len() {
                    row.push(cols[c][r] % p);
                } else {
                    row.push(0);
                }
                c = c + 1;
            }
            data.push(row);
            r = r + 1;
        }
        ModularMatrix { data, p, rows: num_rows, cols: num_cols }
    }

    /// The standard basis vectors `e_0, ..., e_{d-1}` of `F_p^d`.
    pub fn standard_basis(d: usize) -> (basis: Vec<Vec<u32>>)
        ensures
            basis@.len() == d,
            forall|i: int| 0 <= i < d ==> (#[trigger] basis@[i])@.len() == d,
            forall|i: int, c: int| 0 <= i < d && 0 <= c < d ==> #[trigger] basis@[i]@[c] == if i == c {
                1u32
            } else {
                0u32
            },
    {
        let mut basis: Vec<Vec<u32>> = Vec::new();
        let mut i: usize = 0;
        while i < d
            invariant
                i <= d,
                basis@.len() == i,
                forall|k: int| 0 <= k < i ==> (#[trigger] basis@[k])@.len() == d,
                forall|k: int, c: int| 0 <= k < i && 0 <= c < d ==> #[trigger] basis@[k]@[c] == if k == c {
                    1u32
                } else {
                    0u32
                },
            decreases d - i,
        {
            let mut e = zero_row(d);
            e.set(i, 1);
            basis.push(e);
            i = i + 1;
        }
        basis
    }

    /// Creates a matrix from row-major data, reducing entries modulo `p`. The number of columns
    /// is the length of the first row.
    pub fn from_data(data: Vec<Vec<u32>>, p: u32) -> (m: Self)
        requires
            p > 0,
            forall|r: int| 0 <= r < data@.len() ==> (#[trigger] data@[r])@.len() >= data@[0]@.len(),
        ensures
            m.wf(),
            m.p == p,
            m.rows == data@.len(),
            m.cols == if data@.len() > 0 {
                data@[0]@.len()
            } else {
                0
            },
            forall|r: int, c: int| 0 <= r < m.rows && 0 <= c < m.cols ==> #[trigger] m.at(r, c)
                == data@[r]@[c] % p,
    {
        let rows = data.len();
        let cols = if rows > 0 {
            data[0].len()
        } else {
            0
        };
        let mut normalized: Vec<Vec<u32>> = Vec::new();
        let mut r: usize = 0;
        while r < rows
            invariant
                r <= rows,
                rows == data@.len(),
                p > 0,
                forall|k: int| 0 <= k < rows ==> (#[trigger] data@[k])@.len() >= cols,
                normalized@.len() == r,
                forall|k: int| 0 <= k < r ==> (#[trigger] normalized@[k])@.len() == cols,
                forall|k: int, c: int| 0 <= k < r && 0 <= c < cols ==> #[trigger] normalized@[k]@[c]
                    == data@[k]@[c] % p,
            decreases rows - r,
        {
            let mut row: Vec<u32> = Vec::new();
            let mut c: usize = 0;
            while c < cols
                invariant
                    c <= cols,
                    r < rows,
                    rows == data@.len(),
                    p > 0,
                    data@[r as int]@.len() >= cols,
                    row@.len() == c,
                    forall|j: int| 0 <= j < c ==> #[trigger] row@[j] == data@[r as int]@[j] % p,
                decreases cols - c,
            {
                row.push(data[r][c] % p);
                c = c + 1;
            }
            normalized.push(row);
            r = r + 1;
        }
        ModularMatrix { data: normalized, p, rows, cols }
    }

    /// Entrywise sum modulo `p`.
    pub fn add(&self, rhs: &ModularMatrix) -> (m: ModularMatrix)
        requires
            self.wf(),
            rhs.wf(),
            self.rows == rhs.rows,
            self.cols == rhs.cols,
            self.p == rhs.p,
        ensures
            m.wf(),
            m.rows == self.rows,
            m.cols == self.cols,
            m.p == self.p,
            forall|r: int, c: int| 0 <= r < m.rows && 0 <= c < m.cols ==> #[trigger] m.at(r, c) == (
            self.at(r, c) + rhs.at(r, c)) % (self.p as int),
    {
        let p = self.p;
        let mut data: Vec<Vec<u32>> = Vec::new();
        let mut r: usize = 0;
        while r < self.rows
            invariant
                r <= self.rows,
                self.wf(),
                rhs.wf(),
                self.rows == rhs.rows,
                self.cols == rhs.cols,
                self.p == rhs.p,
                p == self.p,
                data@.len() == r,
                forall|k: int| 0 <= k < r ==> (#[trigger] data@[k])@.len() == self.cols,
                forall|k: int, c: int| 0 <= k < r && 0 <= c < self.cols ==> #[trigger] data@[k]@[c] == (
                self.at(k, c) + rhs.at(k, c)) % (p as int),
            decreases self.rows - r,
        {
            let mut row: Vec<u32> = Vec::new();
            let mut c: usize = 0;
            while c < self.cols
                invariant
                    c <= self.cols,
                    r < self.rows,
                    self.wf(),
                    rhs.wf(),
                    self.rows == rhs.rows,
                    self.cols == rhs.cols,
                    self.p == rhs.p,
                    p == self.p,
                    row@.len() == c,
                    forall|j: int| 0 <= j < c ==> #[trigger] row@[j] == (self.at(r as int, j) + rhs.at(
                        r as int,
                        j,
                    )) % (p as int),
                decreases self.cols - c,
            {
                let s = ((self.data[r][c] as u64 + rhs.data[r][c] as u64) % (p as u64)) as u32;
                row.push(s);
                c = c + 1;
            }
            data.push(row);
            r = r + 1;
        }
        ModularMatrix { data, p, rows: self.rows, cols: self.cols }
    }

    /// Entrywise difference modulo `p`.
    pub fn sub(&self, rhs: &ModularMatrix) -> (m: ModularMatrix)
        requires
            self.wf(),
            rhs.wf(),
            self.rows == rhs.rows,
            self.cols == rhs.cols,
            self.p == rhs.p,
        ensures
            m.wf(),
            m.rows == self.rows,
            m.cols == self.cols,
            m.p == self.p,
            forall|r: int, c: int| 0 <= r < m.rows && 0 <= c < m.cols ==> #[trigger] m.at(r, c) == (
            self.at(r, c) + self.p - rhs.at(r, c)) % (self.p as int),
    {
        let p = self.p;
        let mut data: Vec<Vec<u32>> = Vec::new();
        let mut r: usize = 0;
        while r < self.rows
            invariant
                r <= self.rows,
                self.wf(),
                rhs.wf(),
                self.rows == rhs.rows,
                self.cols == rhs.cols,
                self.p == rhs.p,
                p == self.p,
                data@.len() == r,
                forall|k: int| 0 <= k < r ==> (#[trigger] data@[k])@.len() == self.cols,
                forall|k: int, c: int| 0 <= k < r && 0 <= c < self.cols ==> #[trigger] data@[k]@[c] == (
                self.at(k, c) + p - rhs.at(k, c)) % (p as int),
            decreases self.rows - r,
        {
            let mut row: Vec<u32> = Vec::new();
            let mut c: usize = 0;
            while c < self.cols
                invariant
                    c <= self.cols,
                    r < self.rows,
                    self.wf(),
                    rhs.wf(),
                    self.rows == rhs.rows,
                    self.cols == rhs.cols,
                    self.p == rhs.p,
                    p == self.p,
                    row@.len() == c,
                    forall|j: int| 0 <= j < c ==> #[trigger] row@[j] == (self.at(r as int, j) + p - rhs.at(
                        r as int,
                        j,
                    )) % (p as int),
                decreases self.cols - c,
            {
                assert(rhs.at(r as int, c as int) < p);
                let s = ((self.data[r][c] as u64 + p as u64 - rhs.data[r][c] as u64) % (p as u64)) as u32;
                row.push(s);
                c = c + 1;
            }
            data.push(row);
            r = r + 1;
        }
        ModularMatrix { data, p, rows: self.rows, cols: self.cols }
    }

    /// Matrix product modulo `p`, accumulating each entry with a reduction after every product.
    pub fn mul(&self, rhs: &ModularMatrix) -> (m: ModularMatrix)
        requires
            self.wf(),
            rhs.wf(),
            self.cols == rhs.rows,
            self.p == rhs.p,
        ensures
            m.wf(),
            m.rows == self.rows,
            m.cols == rhs.cols,
            m.p == self.p,
            forall|r: int, c: int| 0 <= r < m.rows && 0 <= c < m.cols ==> #[trigger] m.at(r, c)
                == dot_acc(self.entries()[r], column(rhs.entries(), c), self.cols as nat, self.p as nat),
    {
        let p = self.p;
        let mut data: Vec<Vec<u32>> = Vec::new();
        let mut r: usize = 0;
        while r < self.rows
            invariant
                r <= self.rows,
                self.wf(),
                rhs.wf(),
                self.cols == rhs.rows,
                p == self.p,
                data@.len() == r,
                forall|k: int| 0 <= k < r ==> (#[trigger] data@[k])@.len() == rhs.cols,
                forall|k: int, c: int| 0 <= k < r && 0 <= c < rhs.cols ==> #[trigger] data@[k]@[c]
                    == dot_acc(self.entries()[k], column(rhs.entries(), c), self.cols as nat, p as nat),
            decreases self.rows - r,
        {
            let mut row: Vec<u32> = Vec::new();
            let mut c: usize = 0;
            while c < rhs.cols
                invariant
                    c <= rhs.cols,
                    r < self.rows,
                    self.wf(),
                    rhs.wf(),
                    self.cols == rhs.rows,
                    p == self.p,
                    row@.len() == c,
                    forall|j: int| 0 <= j < c ==> #[trigger] row@[j] == dot_acc(
                        self.entries()[r as int],
                        column(rhs.entries(), j),
                        self.cols as nat,
                        p as nat,
                    ),
                decreases rhs.cols - c,
            {
                let ghost a = self.entries()[r as int];
                let ghost b = column(rhs.entries(), c as int);
                let mut sum: u64 = 0;
                let mut k: usize = 0;
                while k < self.cols
                    invariant
                        k <= self.cols,
                        r < self.rows,
                        c < rhs.cols,
                        self.wf(),
                        rhs.wf(),
                        self.cols == rhs.rows,
                        p == self.p,
                        a == self.entries()[r as int],
                        b == column(rhs.entries(), c as int),
                        sum == dot_acc(a, b, k as nat, p as nat),
                        sum < p,
                    decreases self.cols - k,
                {
                    let x = self.data[r][k] as u64;
                    let y = rhs.data[k][c] as u64;
                    proof {
                        assert(a[k as int] == x);
                        assert(b[k as int] == y);
                        assert(x * y <= 0xffff_fffe_0000_0001u64) by (nonlinear_arith)
                            requires
                                x <= 0xffff_ffffu64,
                                y <= 0xffff_ffffu64,
                        ;
                    }
                    sum = (sum + x * y) % (p as u64);
                    k = k + 1;
                }
                row.push(sum as u32);
                c = c + 1;
            }
            data.push(row);
            r = r + 1;
        }
        ModularMatrix { data, p, rows: self.rows, cols: rhs.cols }
    }

    /// Multiplies every entry by `scalar` modulo `p`.
    pub fn scalar_mul(&self, scalar: u32) -> (m: ModularMatrix)
        requires
            self.wf(),
        ensures
            m.wf(),
            m.rows == self.rows,
            m.cols == self.cols,
            m.p == self.p,
            forall|r: int, c: int| 0 <= r < m.rows && 0 <= c < m.cols ==> #[trigger] m.at(r, c) == (
            self.at(r, c) * (scalar % self.p)) % (self.p as int),
    {
        let p = self.p;
        let s = (scalar % p) as u64;
        let mut data: Vec<Vec<u32>> = Vec::new();
        let mut r: usize = 0;
        while r < self.rows
            invariant
                r <= self.rows,
                self.wf(),
                p == self.p,
                s == scalar % p,
                data@.len() == r,
                forall|k: int| 0 <= k < r ==> (#[trigger] data@[k])@.len() == self.cols,
                forall|k: int, c: int| 0 <= k < r && 0 <= c < self.cols ==> #[trigger] data@[k]@[c] == (
                self.at(k, c) * s) % (p as int),
            decreases self.rows - r,
        {
            let mut row: Vec<u32> = Vec::new();
            let mut c: usize = 0;
            while c < self.cols
                invariant
                    c <= self.cols,
                    r < self.rows,
                    self.wf(),
                    p == self.p,
                    s == scalar % p,
                    row@.len() == c,
                    forall|j: int| 0 <= j < c ==> #[trigger] row@[j] == (self.at(r as int, j) * s) % (
                    p as int),
                decreases self.cols - c,
            {
                let x = self.data[r][c] as u64;
                proof {
                    assert(x * s <= 0xffff_fffe_0000_0001u64) by (nonlinear_arith)
                        requires
                            x <= 0xffff_ffffu64,
                            s <= 0xffff_ffffu64,
                    ;
                }
                row.push(((x * s) % (p as u64)) as u32);
                c = c + 1;
            }
            data.push(row);
            r = r + 1;
        }
        ModularMatrix { data, p, rows: self.rows, cols: self.cols }
    }

    /// A copy of the matrix.
    pub fn duplicate(&self) -> (m: Self)
        ensures
            m.data@.len() == self.data@.len(),
            m.entries() == self.entries(),
            m.p == self.p,
            m.rows == self.rows,
            m.cols == self.cols,
    {
        let mut data: Vec<Vec<u32>> = Vec::new();
        let mut r: usize = 0;
        while r < self.data.len()
            invariant
                r <= self.data@.len(),
                data@.len() == r,
                forall|k: int| 0 <= k < r ==> (#[trigger] data@[k])@ == self.data@[k]@,
            decreases self.data@.len() - r,
        {
            data.push(copy_row(&self.data[r]));
            r = r + 1;
        }
        let m = ModularMatrix { data, p: self.p, rows: self.rows, cols: self.cols };
        assert(m.entries() =~= self.entries());
        m
    }

    /// Brings the matrix into reduced row echelon form in place by Gaussian elimination.
    ///
    /// Returns the pivot columns and the rank.
    pub fn rref(&mut self) -> (res: (Vec<usize>, usize))
        requires
            old(self).wf(),
            spec_is_prime(old(self).p as int),
        ensures
            final(self).wf(),
            final(self).rows == old(self).rows,
            final(self).cols == old(self).cols,
            final(self).p == old(self).p,
            res.1 == res.0@.len(),
            is_rref(final(self).entries(), final(self).rows as nat, final(self).cols as nat, res.0@),
            same_kernel(old(self).entries(), final(self).entries(), old(self).rows as nat, old(self).cols as nat, old(self).p as nat),
    {
        let p = self.p;
        let ghost orig = self.entries();
        proof {
            assert forall|v: Seq<u32>| v.len() == self.cols implies (#[trigger] in_kernel(orig, self.rows as nat, self.cols as nat, v, p as nat)
                <==> #[trigger] in_kernel(self.entries(), self.rows as nat, self.cols as nat, v, p as nat)) by {}
        }
        let mut pivot_row: usize = 0;
        let mut pivot_cols: Vec<usize> = Vec::new();
        let mut col: usize = 0;
        while col < self.cols && pivot_row < self.rows
            invariant
                self.wf(),
                self.rows == old(self).rows,
                self.cols == old(self).cols,
                p == self.p,
                spec_is_prime(p as int),
                col <= self.cols,
                orig == old(self).entries(),
                same_kernel(orig, self.entries(), self.rows as nat, self.cols as nat, p as nat),
                pivot_row == pivot_cols@.len(),
                pivot_row <= self.rows,
                forall|i: int, j: int| 0 <= i < j < pivot_row ==> #[trigger] pivot_cols@[i] < #[trigger] pivot_cols@[j],
                forall|i: int| 0 <= i < pivot_row ==> #[trigger] pivot_cols@[i] < col,
                forall|i: int| 0 <= i < pivot_row ==> #[trigger] self.entries()[i][pivot_cols@[i] as int] == 1,
                forall|i: int, j: int|
                    0 <= i < pivot_row && 0 <= j < self.rows && j != i ==> #[trigger] self.entries()[j][pivot_cols@[i] as int] == 0,
                forall|i: int, c: int| 0 <= i < pivot_row && 0 <= c < pivot_cols@[i] ==> #[trigger] self.entries()[i][c] == 0,
                forall|j: int, c: int| pivot_row <= j < self.rows && 0 <= c < col ==> #[trigger] self.entries()[j][c] == 0,
            decreases self.cols - col,
        {
            let ghost e0 = self.entries();
            proof {
                assert forall|j: int, c: int| 0 <= j < self.rows && 0 <= c < self.cols implies #[trigger] e0[j][c]
                    < p by {
                    assert(e0[j] == self.data@[j]@);
                    assert(self.at(j, c) < p);
                }
            }
            let mut cand: usize = pivot_row;
            while cand < self.rows && self.data[cand][col] % p == 0
                invariant
                    self.wf(),
                    p == self.p,
                    pivot_row <= cand <= self.rows,
                    col < self.cols,
                    e0 == self.entries(),
                    forall|j: int| pivot_row <= j < cand ==> #[trigger] e0[j][col as int] == 0,
                    forall|j: int, c: int| 0 <= j < self.rows && 0 <= c < self.cols ==> #[trigger] e0[j][c] < p,
                decreases self.rows - cand,
            {
                proof {
                    let x = e0[cand as int][col as int];
                    assert(x == self.at(cand as int, col as int));
                    assert(x < p);
                    assert(x == 0) by (nonlinear_arith)
                        requires
                            x < p,
                            x % p == 0,
                    ;
                }
                cand = cand + 1;
            }
            if cand < self.rows {
                let r = cand;
                proof {
                    assert(e0[r as int][col as int] < p);
                }
                let row_r = copy_row(&self.data[r]);
                let row_p = copy_row(&self.data[pivot_row]);
                self.data.set(pivot_row, row_r);
                self.data.set(r, row_p);
                let ghost e1 = self.entries();
                proof {
                    assert forall|j: int| 0 <= j < self.rows implies #[trigger] e1[j] == if j == pivot_row {
                        e0[r as int]
                    } else if j == r {
                        e0[pivot_row as int]
                    } else {
                        e0[j]
                    } by {}
                    lemma_kernel_swap(e0, e1, self.rows as nat, self.cols as nat, p as nat, pivot_row as int, r as int);
                    lemma_same_kernel_trans(orig, e0, e1, self.rows as nat, self.cols as nat, p as nat);
                }
                let pivot_val = self.data[pivot_row][col] % p;
                proof {
                    assert(e1[pivot_row as int][col as int] == e0[r as int][col as int]);
                    assert(e0[r as int][col as int] < p);
                    lemma_gcd_prime(p as nat, pivot_val as nat);
                    assert(pivot_val % p == pivot_val) by (nonlinear_arith)
                        requires
                            pivot_val < p,
                    ;
                }
                let inv = mod_inverse(pivot_val, p).expect("pivot must be invertible");
                let scaled = scaled_row(&self.data[pivot_row], inv, p);
                self.data.set(pivot_row, scaled);
                let ghost e2 = self.entries();
                proof {
                    assert forall|c: int| 0 <= c < self.cols implies #[trigger] e2[pivot_row as int][c]
                        == (e1[pivot_row as int][c] * inv) % (p as int) by {}
                    assert forall|j: int| 0 <= j < self.rows && j != pivot_row implies #[trigger] e2[j] == e1[j] by {}
                    assert forall|c: int| 0 <= c < self.cols implies (#[trigger] e2[pivot_row as int][c] as int) % (p as int)
                        == (inv * e1[pivot_row as int][c] + 0 * e1[pivot_row as int][c]) % (p as int) by {
                        lemma_scaled_entry(e1[pivot_row as int][c] as int, inv as int, p as int);
                    }
                    assert((inv * pivot_val) % (p as int) == 1int % (p as int)) by {
                        assert(inv * pivot_val == pivot_val * inv) by (nonlinear_arith);
                        assert(1int % (p as int) == 1) by (nonlinear_arith)
                            requires
                                p > 1,
                        ;
                    }
                    lemma_kernel_scale(e1, e2, self.rows as nat, self.cols as nat, p as nat, pivot_row as int, inv as int, pivot_val as int);
                    lemma_same_kernel_trans(orig, e1, e2, self.rows as nat, self.cols as nat, p as nat);
                }
                let mut rr: usize = 0;
                while rr < self.rows
                    invariant
                        self.rows == old(self).rows,
                        self.cols == old(self).cols,
                        self.data@.len() == self.rows,
                        forall|j: int| 0 <= j < self.rows ==> (#[trigger] self.data@[j])@.len() == self.cols,
                        self.p == p,
                        p > 0,
                        rr <= self.rows,
                        pivot_row < self.rows,
                        col < self.cols,
                        same_kernel(orig, self.entries(), self.rows as nat, self.cols as nat, p as nat),
                        self.entries()[pivot_row as int] == e2[pivot_row as int],
                        forall|j: int| rr <= j < self.rows ==> #[trigger] self.entries()[j] == e2[j],
                        forall|j: int| 0 <= j < rr && j != pivot_row ==> #[trigger] self.entries()[j] == if (e2[j][col as int] as int) % (p as int) != 0 {
                            Seq::new(self.cols as nat, |c: int| ((e2[j][c] + p - (((e2[j][col as int] as int) % (p as int)) * e2[pivot_row as int][c]) % (p as int)) % (p as int)) as u32)
                        } else {
                            e2[j]
                        },
                    decreases self.rows - rr,
                {
                    if rr != pivot_row {
                        proof {
                            assert(self.entries()[rr as int] == e2[rr as int]);
                            assert(self.data@[rr as int]@ == e2[rr as int]);
                            assert(self.data@[pivot_row as int]@ == e2[pivot_row as int]);
                        }
                        let factor = self.data[rr][col] % p;
                        if factor != 0 {
                            let newrow = reduced_row(&self.data[rr], &self.data[pivot_row], factor, p);
                            let ghost before = self.entries();
                            self.data.set(rr, newrow);
                            proof {
                                assert(self.entries()[rr as int] =~= Seq::new(self.cols as nat, |c: int| ((e2[rr as int][c] + p - (((e2[rr as int][col as int] as int) % (p as int)) * e2[pivot_row as int][c]) % (p as int)) % (p as int)) as u32));
                                assert forall|j: int| 0 <= j < self.rows && j != rr implies #[trigger] self.entries()[j] == before[j] by {}
                                assert forall|c: int| 0 <= c < self.cols implies (#[trigger] self.entries()[rr as int][c] as int) % (p as int)
                                    == (1 * before[rr as int][c] + (-(factor as int)) * before[pivot_row as int][c]) % (p as int) by {
                                    lemma_reduced_entry(before[rr as int][c] as int, before[pivot_row as int][c] as int, factor as int, p as int);
                                }
                                lemma_kernel_reduce(before, self.entries(), self.rows as nat, self.cols as nat, p as nat, pivot_row as int, rr as int, factor as int);
                                lemma_same_kernel_trans(orig, before, self.entries(), self.rows as nat, self.cols as nat, p as nat);
                            }
                        }
                    }
                    rr = rr + 1;
                }
                proof {
                    let ee = self.entries();
                    let pr = pivot_row as int;
                    let cl = col as int;
                    let pp = p as int;
                    assert(pivot_val == e0[r as int][cl]) by (nonlinear_arith)
                        requires
                            pivot_val == (e0[r as int][cl] as int) % pp,
                            e0[r as int][cl] < pp,
                            pp > 0,
                    ;
                    assert forall|c: int| 0 <= c < cl implies #[trigger] e2[pr][c] == 0 by {
                        assert(e1[pr][c] == e0[r as int][c]);
                        assert(e0[r as int][c] == 0);
                        lemma_reduce_facts(0, inv as int, pp);
                    }
                    assert(e2[pr][cl] == 1);
                    assert forall|i: int| 0 <= i < pr implies #[trigger] e2[pr][pivot_cols@[i] as int] == 0 by {
                        assert(pivot_cols@[i] < col);
                    }
                    assert forall|j: int, c: int|
                        0 <= j < self.rows && j != pr && 0 <= c < self.cols && e2[pr][c] == 0 implies #[trigger] ee[j][c]
                            == e2[j][c] by {
                        assert(e2[j] == e1[j]);
                        assert(e2[j][c] < pp);
                        if (e2[j][cl] as int) % pp != 0 {
                            lemma_reduce_facts(e2[j][c] as int, (e2[j][cl] as int) % pp, pp);
                        }
                    }
                    assert forall|j: int| 0 <= j < self.rows && j != pr implies #[trigger] ee[j][cl] == 0 by {
                        assert(e2[j] == e1[j]);
                        let x = e2[j][cl];
                        assert(x < pp);
                        if (x as int) % pp != 0 {
                            assert((x as int) % pp == x) by (nonlinear_arith)
                                requires
                                    x < pp,
                                    pp > 0,
                            ;
                            lemma_reduce_facts(x as int, x as int, pp);
                        } else {
                            assert(x == 0) by (nonlinear_arith)
                                requires
                                    x < pp,
                                    (x as int) % pp == 0,
                            ;
                        }
                    }
                    assert forall|j: int, c: int| 0 <= j < self.rows && 0 <= c < self.cols implies #[trigger] ee[j][c]
                        < pp by {
                        if j != pr {
                            assert(e2[j] == e1[j]);
                        }
                    }
                    assert forall|j: int, c: int| 0 <= j < self.rows && 0 <= c < self.cols implies #[trigger] self.at(j, c)
                        < pp by {
                        assert(self.at(j, c) == ee[j][c]);
                    }
                    assert forall|i: int, j: int|
                        0 <= i < pr + 1 && 0 <= j < self.rows && j != i implies #[trigger] ee[j][pivot_cols@.push(col)[i] as int] == 0 by {
                        if i < pr {
                            let pc = pivot_cols@[i] as int;
                            assert(pivot_cols@.push(col)[i] == pivot_cols@[i]);
                            if j == pr {
                                assert(e0[r as int][pc] == 0);
                                lemma_reduce_facts(0, inv as int, pp);
                            } else {
                                assert(e2[j] == e1[j]);
                                if j == r {
                                    assert(e1[j] == e0[pr]);
                                } else {
                                    assert(e1[j] == e0[j]);
                                }
                            }
                        }
                    }
                    assert forall|i: int| 0 <= i < pr + 1 implies #[trigger] ee[i][pivot_cols@.push(col)[i] as int] == 1 by {
                        if i < pr {
                            let pc = pivot_cols@[i] as int;
                            assert(pivot_cols@.push(col)[i] == pivot_cols@[i]);
                            assert(e2[i] == e1[i]);
                            assert(e1[i] == e0[i]);
                            lemma_reduce_facts(1, 0, pp);
                            assert((1 + pp) % pp == 1) by (nonlinear_arith)
                                requires
                                    pp > 1,
                            ;
                        }
                    }
                    assert forall|i: int, c: int| 0 <= i < pr + 1 && 0 <= c < pivot_cols@.push(col)[i] implies #[trigger] ee[i][c]
                        == 0 by {
                        if i < pr {
                            assert(pivot_cols@.push(col)[i] == pivot_cols@[i]);
                            assert(pivot_cols@[i] < col);
                            assert(e2[i] == e1[i]);
                            assert(e1[i] == e0[i]);
                        }
                    }
                    assert forall|j: int, c: int| pr + 1 <= j < self.rows && 0 <= c < cl + 1 implies #[trigger] ee[j][c]
                        == 0 by {
                        if c < cl {
                            assert(e2[j] == e1[j]);
                            if j == r {
                                assert(e1[j] == e0[pr]);
                            } else {
                                assert(e1[j] == e0[j]);
                            }
                        }
                    }
                }
                pivot_cols.push(col);
                pivot_row = pivot_row + 1;
            } else {
                proof {
                    assert forall|j: int, c: int| pivot_row <= j < self.rows && 0 <= c < col + 1 implies #[trigger] self.entries()[j][c] == 0 by {
                        if c == col {
                            assert(e0[j][col as int] == 0);
                        }
                    }
                }
            }
            col = col + 1;
        }
        (pivot_cols, pivot_row)
    }

    /// Computes a basis of the nullspace: the matrix is brought to reduced row echelon form and
    /// one vector is read off at each free (non-pivot) column, in increasing order.
    pub fn nullspace(&self) -> (ns: Vec<Vec<u32>>)
        requires
            self.wf(),
            spec_is_prime(self.p as int),
        ensures
            self.cols == 0 ==> ns@.len() == 0,
            self.cols > 0 ==> exists|m: Seq<Seq<u32>>, pc: Seq<usize>, fr: Seq<int>|
                #[trigger] is_nullspace_basis(rows_of(ns@), m, pc, fr, self.rows as nat, self.cols as nat, self.p as nat)
                    && same_kernel(self.entries(), m, self.rows as nat, self.cols as nat, self.p as nat),
            forall|k: int|
                0 <= k < ns@.len() ==> (#[trigger] ns@[k])@.len() == self.cols && in_kernel(
                    self.entries(),
                    self.rows as nat,
                    self.cols as nat,
                    ns@[k]@,
                    self.p as nat,
                ),
    {
        if self.cols == 0 {
            return Vec::new();
        }
        let p = self.p;
        let cols = self.cols;
        let mut rm = self.duplicate();
        proof {
            assert(rm.wf()) by {
                assert forall|r: int, c: int| 0 <= r < rm.rows && 0 <= c < rm.cols implies #[trigger] rm.at(r, c)
                    < rm.p by {
                    assert(rm.at(r, c) == rm.entries()[r][c]);
                    assert(self.at(r, c) == self.entries()[r][c]);
                }
                assert forall|r: int| 0 <= r < rm.rows implies (#[trigger] rm.data@[r])@.len() == rm.cols by {
                    assert(rm.data@[r]@ == rm.entries()[r]);
                    assert(self.data@[r]@ == self.entries()[r]);
                }
            }
        }
        let (pivot_cols, _rank) = rm.rref();
        let ghost m = rm.entries();
        let ghost pc = pivot_cols@;
        proof {
            assert forall|r: int, c: int| 0 <= r < rm.rows && 0 <= c < rm.cols implies #[trigger] m[r][c] < p by {
                assert(m[r][c] == rm.at(r, c));
            }
            assert forall|r: int| 0 <= r < rm.rows implies (#[trigger] m[r]).len() == cols by {
                assert(m[r] == rm.data@[r]@);
            }
        }
        let mut is_pivot: Vec<bool> = Vec::new();
        let mut c: usize = 0;
        while c < cols
            invariant
                c <= cols,
                is_pivot@.len() == c,
                forall|j: int| 0 <= j < c ==> !(#[trigger] is_pivot@[j]),
            decreases cols - c,
        {
            is_pivot.push(false);
            c = c + 1;
        }
        let mut i: usize = 0;
        while i < pivot_cols.len()
            invariant
                i <= pc.len(),
                pc == pivot_cols@,
                is_pivot@.len() == cols,
                forall|k: int| 0 <= k < pc.len() ==> #[trigger] pc[k] < cols,
                forall|j: int| 0 <= j < cols ==> (#[trigger] is_pivot@[j] <==> pc.take(i as int).contains(j as usize)),
            decreases pc.len() - i,
        {
            let ghost before = is_pivot@;
            is_pivot.set(pivot_cols[i], true);
            proof {
                assert forall|j: int| 0 <= j < cols implies (#[trigger] is_pivot@[j] <==> pc.take(i + 1).contains(
                    j as usize,
                )) by {
                    if pc.take(i + 1).contains(j as usize) {
                        let w = choose|w: int| 0 <= w < i + 1 && #[trigger] pc.take(i + 1)[w] == j as usize;
                        if w < i {
                            assert(pc.take(i as int)[w] == j as usize);
                        }
                    }
                    if pc.take(i as int).contains(j as usize) {
                        let w = choose|w: int| 0 <= w < i && #[trigger] pc.take(i as int)[w] == j as usize;
                        assert(pc.take(i + 1)[w] == j as usize);
                    }
                    if j == pc[i as int] {
                        assert(pc.take(i + 1)[i as int] == j as usize);
                    }
                }
            }
            i = i + 1;
        }
        assert(pc.take(pc.len() as int) =~= pc);
        let mut ns: Vec<Vec<u32>> = Vec::new();
        let ghost mut fr: Seq<int> = Seq::empty();
        let mut f: usize = 0;
        while f < cols
            invariant
                f <= cols,
                cols == self.cols,
                p == self.p,
                p > 0,
                pc == pivot_cols@,
                is_pivot@.len() == cols,
                forall|j: int| 0 <= j < cols ==> (#[trigger] is_pivot@[j] <==> pc.contains(j as usize)),
                is_rref(m, rm.rows as nat, cols as nat, pc),
                rm.wf(),
                m == rm.entries(),
                rm.rows == self.rows,
                rm.cols == cols,
                forall|r: int| 0 <= r < rm.rows ==> (#[trigger] m[r]).len() == cols,
                forall|r: int, c: int| 0 <= r < rm.rows && 0 <= c < cols ==> #[trigger] m[r][c] < p,
                forall|a: int, b: int| 0 <= a < b < fr.len() ==> #[trigger] fr[a] < #[trigger] fr[b],
                forall|k: int| 0 <= k < fr.len() ==> 0 <= #[trigger] fr[k] < f && !pc.contains(fr[k] as usize),
                forall|c: int| 0 <= c < f && !pc.contains(c as usize) ==> #[trigger] fr.contains(c),
                ns@.len() == fr.len(),
                forall|k: int| 0 <= k < ns@.len() ==> #[trigger] is_null_vector(ns@[k]@, m, pc, fr[k], cols as nat, p as nat),
            decreases cols - f,
        {
            if !is_pivot[f] {
                let mut v = zero_row(cols);
                v.set(f, 1);
                let mut row_idx: usize = 0;
                while row_idx < pivot_cols.len()
                    invariant
                        row_idx <= pc.len(),
                        f < cols,
                        p > 0,
                        pc == pivot_cols@,
                        !pc.contains(f as usize),
                        is_rref(m, rm.rows as nat, cols as nat, pc),
                        rm.wf(),
                        m == rm.entries(),
                        rm.rows == self.rows,
                        forall|r: int| 0 <= r < rm.rows ==> (#[trigger] m[r]).len() == cols,
                        v@.len() == cols,
                        v@[f as int] == 1,
                        forall|k: int| 0 <= k < row_idx ==> #[trigger] v@[pc[k] as int] == ((p - (m[k][f as int] as int) % (p as int)) % (p as int)),
                        forall|c: int| 0 <= c < cols && c != f && !pc.take(row_idx as int).contains(c as usize) ==> #[trigger] v@[c] == 0,
                    decreases pc.len() - row_idx,
                {
                    proof {
                        assert(m[row_idx as int] == rm.data@[row_idx as int]@);
                    }
                    let coeff = rm.data[row_idx][f] % p;
                    let pcol = pivot_cols[row_idx];
                    proof {
                        assert(pc[row_idx as int] != f) by {
                            assert(pc.contains(pc[row_idx as int]));
                        }
                    }
                    let ghost before = v@;
                    v.set(pcol, (p - coeff) % p);
                    proof {
                        assert forall|k: int| 0 <= k < row_idx + 1 implies #[trigger] v@[pc[k] as int] == ((p
                            - (m[k][f as int] as int) % (p as int)) % (p as int)) by {
                            if k < row_idx {
                                assert(pc[k] < pc[row_idx as int]);
                            }
                        }
                        assert forall|c: int| 0 <= c < cols && c != f && !pc.take(row_idx + 1).contains(
                            c as usize,
                        ) implies #[trigger] v@[c] == 0 by {
                            assert(pc.take(row_idx + 1)[row_idx as int] == pcol);
                            if pc.take(row_idx as int).contains(c as usize) {
                                let w = choose|w: int| 0 <= w < row_idx && #[trigger] pc.take(row_idx as int)[w] == c as usize;
                                assert(pc.take(row_idx + 1)[w] == c as usize);
                            }
                        }
                    }
                    row_idx = row_idx + 1;
                }
                proof {
                    assert(pc.take(pc.len() as int) =~= pc);
                }
                let ghost old_ns = ns@;
                ns.push(v);
                proof {
                    let fr2 = fr.push(f as int);
                    assert forall|k: int| 0 <= k < ns@.len() implies #[trigger] is_null_vector(ns@[k]@, m, pc, fr2[k], cols as nat, p as nat) by {
                        if k < old_ns.len() {
                            assert(ns@[k] == old_ns[k]);
                        }
                    }
                    assert forall|c: int| 0 <= c < f + 1 && !pc.contains(c as usize) implies #[trigger] fr2.contains(c) by {
                        if c < f {
                            assert(fr.contains(c));
                            let w = choose|w: int| 0 <= w < fr.len() && #[trigger] fr[w] == c;
                            assert(fr2[w] == c);
                        } else {
                            assert(fr2[fr.len() as int] == c);
                        }
                    }
                    fr = fr2;
                }
            } else {
                proof {
                    assert forall|c: int| 0 <= c < f + 1 && !pc.contains(c as usize) implies #[trigger] fr.contains(c) by {}
                }
            }
            f = f + 1;
        }
        proof {
            assert(is_nullspace_basis(rows_of(ns@), m, pc, fr, self.rows as nat, self.cols as nat, p as nat));
            assert forall|k: int| 0 <= k < ns@.len() implies (#[trigger] ns@[k])@.len() == self.cols && in_kernel(
                self.entries(),
                self.rows as nat,
                self.cols as nat,
                ns@[k]@,
                self.p as nat,
            ) by {
                assert(is_null_vector(ns@[k]@, m, pc, fr[k], cols as nat, p as nat));
                lemma_null_vector_kernel(ns@[k]@, m, pc, fr[k], self.rows as nat, cols as nat, p as nat);
                assert(in_kernel(m, self.rows as nat, cols as nat, ns@[k]@, p as nat));
            }
        }
        ns
    }

    /// Multiplies the matrix by the column vector `v`, reducing its entries modulo `p`.
    pub fn mul_vec(&self, v: &[u32]) -> (res: Vec<u32>)
        requires
            self.wf(),
            v@.len() == self.cols,
        ensures
            res@.len() == self.rows,
            forall|r: int| 0 <= r < self.rows ==> #[trigger] res@[r] == dot_acc(
                self.entries()[r],
                v@.map_values(|x: u32| (x % self.p) as u32),
                self.cols as nat,
                self.p as nat,
            ),
            forall|r: int| 0 <= r < self.rows ==> #[trigger] res@[r] < self.p,
    {
        let p = self.p;
        let ghost vm = v@.map_values(|x: u32| (x % p) as u32);
        let mut res: Vec<u32> = Vec::new();
        let mut r: usize = 0;
        while r < self.rows
            invariant
                r <= self.rows,
                self.wf(),
                p == self.p,
                v@.len() == self.cols,
                vm == v@.map_values(|x: u32| (x % p) as u32),
                res@.len() == r,
                forall|k: int| 0 <= k < r ==> #[trigger] res@[k] == dot_acc(
                    self.entries()[k],
                    vm,
                    self.cols as nat,
                    p as nat,
                ),
                forall|k: int| 0 <= k < r ==> #[trigger] res@[k] < p,
            decreases self.rows - r,
        {
            let ghost a = self.entries()[r as int];
            let mut sum: u64 = 0;
            let mut c: usize = 0;
            while c < self.cols
                invariant
                    c <= self.cols,
                    r < self.rows,
                    self.wf(),
                    p == self.p,
                    v@.len() == self.cols,
                    vm == v@.map_values(|x: u32| (x % p) as u32),
                    a == self.entries()[r as int],
                    sum == dot_acc(a, vm, c as nat, p as nat),
                    sum < p,
                decreases self.cols - c,
            {
                let x = self.data[r][c] as u64;
                let y = (v[c] % p) as u64;
                proof {
                    assert(a[c as int] == x);
                    assert(vm[c as int] == y);
                    assert(x * y <= 0xffff_fffe_0000_0001u64) by (nonlinear_arith)
                        requires
                            x <= 0xffff_ffffu64,
                            y <= 0xffff_ffffu64,
                    ;
                }
                sum = (sum + x * y) % (p as u64);
                c = c + 1;
            }
            res.push(sum as u32);
            r = r + 1;
        }
        res
    }
}

} // verus!

verus! {

/// The first index at or after `i` with a non-zero entry, or the length if there is none.
pub open spec fn first_nonzero_from(s: Seq<u32>, i: nat) -> nat
    decreases s.len() - i,
{
    if i >= s.len() {
        s.len()
    } else if s[i as int] != 0 {
        i
    } else {
        first_nonzero_from(s, i + 1)
    }
}

/// The index of the leading (first non-zero) entry, or the length for the zero vector.
pub open spec fn lead_index(s: Seq<u32>) -> nat {
    first_nonzero_from(s, 0)
}

/// The leading index is the first non-zero entry.
pub proof fn lemma_first_nonzero(s: Seq<u32>, i: nat)
    requires
        i <= s.len(),
    ensures
        i <= first_nonzero_from(s, i) <= s.len(),
        forall|j: int| i <= j < first_nonzero_from(s, i) ==> s[j] == 0,
        first_nonzero_from(s, i) < s.len() ==> s[first_nonzero_from(s, i) as int] != 0,
    decreases s.len() - i,
{
    if i < s.len() && s[i as int] == 0 {
        lemma_first_nonzero(s, i + 1);
    }
}

/// An entry that is non-zero after only zeros is the leading entry.
pub proof fn lemma_lead_at(s: Seq<u32>, k: int)
    requires
        0 <= k < s.len(),
        s[k] != 0,
        forall|j: int| 0 <= j < k ==> s[j] == 0,
    ensures
        lead_index(s) == k,
{
    lemma_first_nonzero(s, 0);
    let l = lead_index(s);
    if l < k {
        assert(s[l as int] == 0);
    }
}

/// One reduction step of `v` by the echelon vector `b`: subtract `v[l]` times `b` from
/// position `l = lead_index(b)` on.
pub open spec fn reduce_step(v: Seq<u32>, b: Seq<u32>, p: nat) -> Seq<u32> {
    let l = lead_index(b) as int;
    let f = v[l];
    if f == 0 {
        v
    } else {
        Seq::new(
            v.len(),
            |i: int|
                if i >= l {
                    ((v[i] + p - (f * b[i]) % (p as int)) % (p as int)) as u32
                } else {
                    v[i]
                },
        )
    }
}

/// `v` reduced by each basis vector in turn.
pub open spec fn reduce_all_by(v: Seq<u32>, basis: Seq<Seq<u32>>, p: nat) -> Seq<u32>
    decreases basis.len(),
{
    if basis.len() == 0 {
        v
    } else {
        reduce_step(reduce_all_by(v, basis.drop_last(), p), basis.last(), p)
    }
}

/// The vector scaled from its leading entry on so that the leading entry becomes one.
pub open spec fn normalized(r: Seq<u32>, p: nat) -> Seq<u32> {
    let l = lead_index(r) as int;
    let k = crate::util::field::lead_inverse(r[l] as int, p as int);
    Seq::new(r.len(), |c: int| if c >= l { ((r[c] * k) % (p as int)) as u32 } else { r[c] })
}

/// The basis with `w` inserted at position `idx` and the vectors before it reduced by `w`.
pub open spec fn extended_basis(bv: Seq<Seq<u32>>, w: Seq<u32>, idx: int, p: nat) -> Seq<Seq<u32>> {
    Seq::new(idx as nat, |j: int| reduce_step(bv[j], w, p)) + seq![w] + bv.subrange(idx, bv.len() as int)
}

/// The vectors have length `d` and entries below `p`, each has a leading one, and the leading
/// indices strictly increase.
pub open spec fn is_echelon_basis(basis: Seq<Seq<u32>>, d: nat, p: nat) -> bool {
    &&& forall|i: int| 0 <= i < basis.len() ==> (#[trigger] basis[i]).len() == d
    &&& forall|i: int, c: int| 0 <= i < basis.len() && 0 <= c < d ==> #[trigger] basis[i][c] < p
    &&& forall|i: int|
        0 <= i < basis.len() ==> lead_index(#[trigger] basis[i]) < d && basis[i][lead_index(basis[i]) as int]
            == 1
    &&& forall|i: int, j: int|
        0 <= i < j < basis.len() ==> lead_index(#[trigger] basis[i]) < lead_index(#[trigger] basis[j])
}

/// An echelon basis of `F_p^d` has at most `d` vectors.
pub proof fn lemma_echelon_len(basis: Seq<Seq<u32>>, d: nat, p: nat)
    requires
        is_echelon_basis(basis, d, p),
    ensures
        basis.len() <= d,
{
    assert forall|i: int| 0 <= i < basis.len() implies lead_index(#[trigger] basis[i]) >= i by {
        lemma_lead_ge(basis, d, p, i);
    }
    if basis.len() > 0 {
        assert(lead_index(basis[basis.len() - 1]) >= basis.len() - 1);
    }
}

proof fn lemma_lead_ge(basis: Seq<Seq<u32>>, d: nat, p: nat, i: int)
    requires
        is_echelon_basis(basis, d, p),
        0 <= i < basis.len(),
    ensures
        lead_index(basis[i]) >= i,
    decreases i,
{
    if i > 0 {
        lemma_lead_ge(basis, d, p, i - 1);
        assert(lead_index(basis[i - 1]) < lead_index(basis[i]));
    }
}

/// The index of the first non-zero entry, or the length.
fn first_nonzero(v: &Vec<u32>) -> (r: usize)
    ensures
        r == lead_index(v@),
{
    let mut i: usize = 0;
    while i < v.len() && v[i] == 0
        invariant
            i <= v@.len(),
            forall|j: int| 0 <= j < i ==> v@[j] == 0,
        decreases v@.len() - i,
    {
        i = i + 1;
    }
    proof {
        lemma_first_nonzero(v@, 0);
        if i < v@.len() {
            lemma_lead_at(v@, i as int);
        } else {
            let l = lead_index(v@);
            if l < v@.len() {
                assert(v@[l as int] == 0);
            }
        }
    }
    i
}

/// `row` with `f` times `piv` subtracted from position `from` on, modulo `p`.
fn reduce_tail(row: &Vec<u32>, piv: &Vec<u32>, f: u32, p: u32, from: usize) -> (out: Vec<u32>)
    requires
        p > 0,
        row@.len() == piv@.len(),
    ensures
        out@.len() == row@.len(),
        forall|c: int|
            0 <= c < row@.len() ==> #[trigger] out@[c] == if c >= from {
                ((row@[c] + p - (f * piv@[c]) % (p as int)) % (p as int)) as u32
            } else {
                row@[c]
            },
{
    let mut out: Vec<u32> = Vec::new();
    let mut i: usize = 0;
    while i < row.len()
        invariant
            i <= row@.len(),
            p > 0,
            row@.len() == piv@.len(),
            out@.len() == i,
            forall|c: int|
                0 <= c < i ==> #[trigger] out@[c] == if c >= from {
                    ((row@[c] + p - (f * piv@[c]) % (p as int)) % (p as int)) as u32
                } else {
                    row@[c]
                },
        decreases row@.len() - i,
    {
        if i >= from {
            let y = piv[i] as u64;
            proof {
                assert((f as u64) * y <= 0xffff_fffe_0000_0001u64) by (nonlinear_arith)
                    requires
                        y <= 0xffff_ffffu64,
                        f <= 0xffff_ffffu32,
                ;
            }
            let sub = ((f as u64) * y) % (p as u64);
            out.push(((row[i] as u64 + p as u64 - sub) % (p as u64)) as u32);
        } else {
            out.push(row[i]);
        }
        i = i + 1;
    }
    out
}

/// `row` with its entries from position `from` on multiplied by `k` modulo `p`.
fn scale_tail(row: &Vec<u32>, k: u32, p: u32, from: usize) -> (out: Vec<u32>)
    requires
        p > 0,
    ensures
        out@.len() == row@.len(),
        forall|c: int|
            0 <= c < row@.len() ==> #[trigger] out@[c] == if c >= from {
                ((row@[c] * k) % (p as int)) as u32
            } else {
                row@[c]
            },
{
    let mut out: Vec<u32> = Vec::new();
    let mut i: usize = 0;
    while i < row.len()
        invariant
            i <= row@.len(),
            p > 0,
            out@.len() == i,
            forall|c: int|
                0 <= c < i ==> #[trigger] out@[c] == if c >= from {
                    ((row@[c] * k) % (p as int)) as u32
                } else {
                    row@[c]
                },
        decreases row@.len() - i,
    {
        if i >= from {
            let x = row[i] as u64;
            proof {
                assert(x * (k as u64) <= 0xffff_fffe_0000_0001u64) by (nonlinear_arith)
                    requires
                        x <= 0xffff_ffffu64,
                        k <= 0xffff_ffffu32,
                ;
            }
            out.push(((x * (k as u64)) % (p as u64)) as u32);
        } else {
            out.push(row[i]);
        }
        i = i + 1;
    }
    out
}

/// A subspace of `F_p^d` given by a basis in echelon form.
#[derive(Debug, Clone, PartialEq, Eq)]
pub struct ModularSubspace {
    pub basis: Vec<Vec<u32>>,
    pub d: usize,
    pub p: u32,
}

impl ModularSubspace {
    /// The basis vectors as sequences.
    pub open spec fn basis_view(&self) -> Seq<Seq<u32>> {
        rows_of(self.basis@)
    }

    /// The modulus is prime and the basis is in echelon form.
    pub open spec fn wf(&self) -> bool {
        &&& spec_is_prime(self.p as int)
        &&& is_echelon_basis(self.basis_view(), self.d as nat, self.p as nat)
    }

    /// The zero subspace `{0}`.
    pub fn zero(d: usize, p: u32) -> (s: Self)
        ensures
            s.d == d,
            s.p == p,
            s.basis@.len() == 0,
            spec_is_prime(p as int) ==> s.wf(),
    {
        ModularSubspace { basis: Vec::new(), d, p }
    }

    /// The whole space `F_p^d`, spanned by the standard basis.
    pub fn full(d: usize, p: u32) -> (s: Self)
        ensures
            s.d == d,
            s.p == p,
            s.basis@.len() == d,
            forall|i: int, c: int| 0 <= i < d && 0 <= c < d ==> #[trigger] s.basis_view()[i][c] == if i == c {
                1u32
            } else {
                0u32
            },
            spec_is_prime(p as int) ==> s.wf(),
    {
        let s = ModularSubspace { basis: ModularMatrix::standard_basis(d), d, p };
        proof {
            let bv = s.basis_view();
            assert forall|i: int| 0 <= i < d implies lead_index(#[trigger] bv[i]) == i by {
                assert(bv[i] == s.basis@[i]@);
                lemma_lead_at(bv[i], i);
            }
            assert forall|i: int| 0 <= i < d implies (#[trigger] bv[i]).len() == d by {
                assert(bv[i] == s.basis@[i]@);
            }
            assert forall|i: int, c: int| 0 <= i < d && 0 <= c < d implies #[trigger] bv[i][c] == if i == c {
                1u32
            } else {
                0u32
            } by {
                assert(bv[i] == s.basis@[i]@);
            }
        }
        s
    }

    /// Adds a vector to the subspace: it is reduced by the basis vectors in order; if a
    /// non-zero remainder is left, it is scaled to a leading one, cleared from the leading
    /// position of the earlier basis vectors and inserted so that the leading indices increase.
    ///
    /// Returns `true` exactly when the remainder is non-zero, that is, when the dimension grew.
    #[verifier::spinoff_prover]
    #[verifier::rlimit(40)]
    pub fn add_vector(&mut self, v: Vec<u32>) -> (grew: bool)
        requires
            old(self).wf(),
            v@.len() == old(self).d,
            forall|c: int| 0 <= c < v@.len() ==> #[trigger] v@[c] < old(self).p,
        ensures
            final(self).wf(),
            final(self).d == old(self).d,
            final(self).p == old(self).p,
            grew == (lead_index(reduce_all_by(v@, old(self).basis_view(), old(self).p as nat)) < old(self).d),
            grew ==> final(self).basis@.len() == old(self).basis@.len() + 1,
            !grew ==> final(self).basis@ == old(self).basis@,
            grew ==> exists|idx: int|
                #![trigger extended_basis(old(self).basis_view(), normalized(reduce_all_by(v@, old(self).basis_view(), old(self).p as nat), old(self).p as nat), idx, old(self).p as nat)]
                0 <= idx <= old(self).basis@.len() && (forall|j: int|
                    0 <= j < idx ==> lead_index(#[trigger] old(self).basis_view()[j]) < lead_index(
                        reduce_all_by(v@, old(self).basis_view(), old(self).p as nat),
                    )) && (forall|j: int|
                    idx <= j < old(self).basis@.len() ==> lead_index(#[trigger] old(self).basis_view()[j]) > lead_index(
                        reduce_all_by(v@, old(self).basis_view(), old(self).p as nat),
                    )) && final(self).basis_view() == extended_basis(
                    old(self).basis_view(),
                    normalized(reduce_all_by(v@, old(self).basis_view(), old(self).p as nat), old(self).p as nat),
                    idx,
                    old(self).p as nat,
                ),
    {
        let p = self.p;
        let d = self.d;
        let ghost v0 = v@;
        let ghost bv = self.basis_view();
        let ghost pp = p as int;
        let mut v = v;
        let mut k: usize = 0;
        while k < self.basis.len()
            invariant
                self.wf(),
                self.basis_view() == bv,
                self.d == d,
                self.p == p,
                pp == p as int,
                k <= bv.len(),
                bv.len() == self.basis@.len(),
                v@ == reduce_all_by(v0, bv.take(k as int), p as nat),
                v@.len() == d,
                forall|c: int| 0 <= c < d ==> #[trigger] v@[c] < p,
                forall|j: int| 0 <= j < k ==> v@[lead_index(#[trigger] bv[j]) as int] == 0,
            decreases bv.len() - k,
        {
            proof {
                assert(bv[k as int] == self.basis@[k as int]@);
            }
            let lead_idx = first_nonzero(&self.basis[k]);
            let factor = v[lead_idx];
            let ghost vk = v@;
            if factor != 0 {
                v = reduce_tail(&v, &self.basis[k], factor, p, lead_idx);
            }
            proof {
                let b = bv[k as int];
                assert(bv.take(k + 1).drop_last() =~= bv.take(k as int));
                assert(bv.take(k + 1).last() == b);
                if factor != 0 {
                    assert(v@ =~= reduce_step(vk, b, p as nat));
                } else {
                    assert(v@ == reduce_step(vk, b, p as nat));
                }
                assert(v@ == reduce_all_by(v0, bv.take(k + 1), p as nat));
                assert forall|c: int| 0 <= c < d implies #[trigger] v@[c] < p by {}
                assert forall|j: int| 0 <= j < k + 1 implies v@[lead_index(#[trigger] bv[j]) as int] == 0 by {
                    if j < k {
                        assert(lead_index(bv[j]) < lead_index(bv[k as int]));
                    } else if factor != 0 {
                        lemma_reduce_facts(factor as int, factor as int, pp);
                    }
                }
            }
            k = k + 1;
        }
        proof {
            assert(bv.take(bv.len() as int) =~= bv);
            lemma_first_nonzero(v@, 0);
        }
        let l = first_nonzero(&v);
        if l < d {
            let lv = v[l];
            proof {
                lemma_gcd_prime(p as nat, lv as nat);
                assert(lv % p == lv) by (nonlinear_arith)
                    requires
                        lv < p,
                ;
            }
            let inv = mod_inverse(lv, p).expect("non-zero entries are invertible modulo a prime");
            let ghost vr = v@;
            let w = scale_tail(&v, inv, p, l);
            proof {
                assert(crate::util::field::is_inverse_mod(lv as int, inv as int, p as int));
                let k = crate::util::field::lead_inverse(lv as int, p as int);
                assert(crate::util::field::is_inverse_mod(lv as int, k, p as int));
                crate::util::field::lemma_inverse_unique(lv as int, k, inv as int, p as int);
                assert(w@ =~= normalized(vr, p as nat));
                assert forall|c: int| 0 <= c < l implies #[trigger] w@[c] == 0 by {}
                assert(w@[l as int] == 1);
                lemma_lead_at(w@, l as int);
                assert forall|c: int| 0 <= c < d implies #[trigger] w@[c] < p by {}
                assert forall|j: int| 0 <= j < bv.len() implies lead_index(#[trigger] bv[j]) != l by {
                    assert(vr[lead_index(bv[j]) as int] == 0);
                }
            }
            let mut idx: usize = 0;
            let mut searching = true;
            while searching && idx < self.basis.len()
                invariant
                    self.wf(),
                    self.basis_view() == bv,
                    bv.len() == self.basis@.len(),
                    idx <= bv.len(),
                    forall|j: int| 0 <= j < idx ==> lead_index(#[trigger] bv[j]) < l,
                    !searching ==> idx < bv.len() && lead_index(bv[idx as int]) > l,
                    forall|j: int| 0 <= j < bv.len() ==> lead_index(#[trigger] bv[j]) != l,
                decreases bv.len() - idx, if searching { 1int } else { 0int },
            {
                proof {
                    assert(bv[idx as int] == self.basis@[idx as int]@);
                }
                if first_nonzero(&self.basis[idx]) < l {
                    idx = idx + 1;
                } else {
                    searching = false;
                }
            }
            proof {
                assert forall|j: int| idx <= j < bv.len() implies lead_index(#[trigger] bv[j]) > l by {
                    if j > idx {
                        assert(lead_index(bv[idx as int]) < lead_index(bv[j]));
                    }
                }
            }
            let mut q: usize = 0;
            while q < idx
                invariant
                    q <= idx <= bv.len(),
                    bv.len() == self.basis@.len(),
                    self.d == d,
                    self.p == p,
                    pp == p as int,
                    spec_is_prime(pp),
                    w@.len() == d,
                    l < d,
                    forall|c: int| 0 <= c < l ==> #[trigger] w@[c] == 0,
                    forall|c: int| 0 <= c < d ==> #[trigger] w@[c] < p,
                    is_echelon_basis(bv, d as nat, p as nat),
                    forall|j: int| 0 <= j < idx ==> lead_index(#[trigger] bv[j]) < l,
                    forall|j: int| q <= j < bv.len() ==> #[trigger] self.basis_view()[j] == bv[j],
                    forall|j: int| 0 <= j < q ==> {
                        let b = #[trigger] self.basis_view()[j];
                        &&& b.len() == d
                        &&& forall|c: int| 0 <= c < l ==> b[c] == bv[j][c]
                        &&& forall|c: int| 0 <= c < d ==> b[c] < p
                    },
                    lead_index(w@) == l,
                    forall|j: int| 0 <= j < q ==> self.basis_view()[j] == reduce_step(#[trigger] bv[j], w@, p as nat),
                decreases idx - q,
            {
                proof {
                    assert(self.basis_view()[q as int] == self.basis@[q as int]@);
                    assert(bv[q as int].len() == d);
                }
                let factor = self.basis[q][l];
                if factor != 0 {
                    let nb = reduce_tail(&self.basis[q], &w, factor, p, l);
                    let ghost before = self.basis_view();
                    self.basis.set(q, nb);
                    proof {
                        assert forall|j: int| 0 <= j < bv.len() && j != q implies #[trigger] self.basis_view()[j]
                            == before[j] by {
                            assert(self.basis_view()[j] == self.basis@[j]@);
                        }
                        assert(self.basis_view()[q as int] == nb@);
                        assert(nb@ =~= reduce_step(bv[q as int], w@, p as nat));
                    }
                } else {
                    proof {
                        assert(self.basis_view()[q as int] == bv[q as int]);
                        assert(bv[q as int][l as int] == 0);
                        assert(reduce_step(bv[q as int], w@, p as nat) == bv[q as int]);
                    }
                }
                q = q + 1;
            }
            let ghost mid = self.basis_view();
            self.basis.insert(idx, w);
            proof {
                let nv = self.basis_view();
                assert(nv =~= mid.insert(idx as int, w@));
                assert(nv =~= extended_basis(bv, w@, idx as int, p as nat)) by {
                    assert forall|j: int| 0 <= j < nv.len() implies nv[j] == extended_basis(bv, w@, idx as int, p as nat)[j] by {
                        if j < idx {
                            assert(nv[j] == mid[j]);
                        } else if j > idx {
                            assert(nv[j] == mid[j - 1]);
                        }
                    }
                }
                assert forall|j: int| 0 <= j < idx implies lead_index(#[trigger] mid[j]) == lead_index(bv[j]) by {
                    let b = mid[j];
                    lemma_first_nonzero(bv[j], 0);
                    let lj = lead_index(bv[j]) as int;
                    assert forall|c: int| 0 <= c < lj implies b[c] == 0 by {}
                    assert(b[lj] == bv[j][lj]);
                    lemma_lead_at(b, lj);
                }
                assert(is_echelon_basis(nv, d as nat, p as nat)) by {
                    assert forall|j: int| 0 <= j < nv.len() implies (#[trigger] nv[j]).len() == d by {
                        if j < idx {
                            assert(nv[j] == mid[j]);
                        } else if j > idx {
                            assert(nv[j] == mid[j - 1]);
                        }
                    }
                    assert forall|j: int, c: int| 0 <= j < nv.len() && 0 <= c < d implies #[trigger] nv[j][c] < p by {
                        if j < idx {
                            assert(nv[j] == mid[j]);
                        } else if j > idx {
                            assert(nv[j] == mid[j - 1]);
                        }
                    }
                    assert forall|j: int| 0 <= j < nv.len() implies lead_index(#[trigger] nv[j]) < d
                        && nv[j][lead_index(nv[j]) as int] == 1 by {
                        if j < idx {
                            assert(nv[j] == mid[j]);
                            assert(lead_index(mid[j]) == lead_index(bv[j]));
                        } else if j > idx {
                            assert(nv[j] == mid[j - 1]);
                            assert(mid[j - 1] == bv[j - 1]);
                        }
                    }
                    assert forall|i: int, j: int| 0 <= i < j < nv.len() implies lead_index(#[trigger] nv[i])
                        < lead_index(#[trigger] nv[j]) by {
                        let li = if i < idx {
                            lead_index(bv[i])
                        } else if i == idx {
                            l as nat
                        } else {
                            lead_index(bv[i - 1])
                        };
                        let lj = if j < idx {
                            lead_index(bv[j])
                        } else if j == idx {
                            l as nat
                        } else {
                            lead_index(bv[j - 1])
                        };
                        if i < idx {
                            assert(nv[i] == mid[i]);
                        } else if i > idx {
                            assert(nv[i] == mid[i - 1]);
                            assert(mid[i - 1] == bv[i - 1]);
                        }
                        if j < idx {
                            assert(nv[j] == mid[j]);
                        } else if j > idx {
                            assert(nv[j] == mid[j - 1]);
                            assert(mid[j - 1] == bv[j - 1]);
                        }
                        assert(lead_index(nv[i]) == li);
                        assert(lead_index(nv[j]) == lj);
                        if i < idx && j < idx {
                            assert(lead_index(bv[i]) < lead_index(bv[j]));
                        }
                        if i > idx && j > idx {
                            assert(lead_index(bv[i - 1]) < lead_index(bv[j - 1]));
                        }
                    }
                }
            }
            true
        } else {
            false
        }
    }

    /// A copy of the subspace.
    pub fn duplicate(&self) -> (s: Self)
        ensures
            s.basis_view() == self.basis_view(),
            s.basis@.len() == self.basis@.len(),
            s.d == self.d,
            s.p == self.p,
    {
        let mut basis: Vec<Vec<u32>> = Vec::new();
        let mut r: usize = 0;
        while r < self.basis.len()
            invariant
                r <= self.basis@.len(),
                basis@.len() == r,
                forall|k: int| 0 <= k < r ==> (#[trigger] basis@[k])@ == self.basis@[k]@,
            decreases self.basis@.len() - r,
        {
            basis.push(copy_row(&self.basis[r]));
            r = r + 1;
        }
        let s = ModularSubspace { basis, d: self.d, p: self.p };
        assert(s.basis_view() =~= self.basis_view());
        s
    }

    /// The dimension of the subspace.
    pub fn dim(&self) -> (n: usize)
        ensures
            n == self.basis@.len(),
    {
        self.basis.len()
    }
}


/// The matrices act on `F_p^d`: each is a well-formed `d x d` matrix over `F_p`.
pub open spec fn acts_on(ms: Seq<ModularMatrix>, d: nat, p: nat) -> bool {
    forall|i: int|
        0 <= i < ms.len() ==> (#[trigger] ms[i]).wf() && ms[i].rows == d && ms[i].cols == d && ms[i].p == p
}

/// A chain of subspaces of `F_p^d` with strictly increasing dimensions.
pub open spec fn is_increasing_chain(c: Seq<ModularSubspace>, d: nat, p: nat) -> bool {
    &&& forall|i: int| 0 <= i < c.len() ==> (#[trigger] c[i]).wf() && c[i].d == d && c[i].p == p
    &&& forall|a: int, b: int|
        0 <= a < b < c.len() ==> (#[trigger] c[a]).basis@.len() < (#[trigger] c[b]).basis@.len()
}

/// A strictly increasing chain of subspaces of `F_p^d` has at most `d + 1` members.
pub proof fn lemma_chain_len(c: Seq<ModularSubspace>, d: nat, p: nat)
    requires
        is_increasing_chain(c, d, p),
    ensures
        c.len() <= d + 1,
{
    assert forall|i: int| 0 <= i < c.len() implies (#[trigger] c[i]).basis@.len() >= i by {
        lemma_chain_dim_ge(c, d, p, i);
    }
    if c.len() > 0 {
        let last = c[c.len() - 1];
        lemma_echelon_len(last.basis_view(), d, p);
    }
}

proof fn lemma_chain_dim_ge(c: Seq<ModularSubspace>, d: nat, p: nat, i: int)
    requires
        is_increasing_chain(c, d, p),
        0 <= i < c.len(),
    ensures
        c[i].basis@.len() >= i,
    decreases i,
{
    if i > 0 {
        lemma_chain_dim_ge(c, d, p, i - 1);
        assert(c[i - 1].basis@.len() < c[i].basis@.len());
    }
}

/// The image `m v` of a vector as [`ModularMatrix::mul_vec`] computes it.
pub open spec fn mat_image(m: ModularMatrix, v: Seq<u32>) -> Seq<u32> {
    Seq::new(
        m.rows as nat,
        |r: int| dot_acc(m.entries()[r], v.map_values(|x: u32| (x % m.p) as u32), m.cols as nat, m.p as nat) as u32,
    )
}

/// The vector lies in the span of the echelon basis: it reduces to zero.
pub open spec fn absorbed(x: Seq<u32>, basis: Seq<Seq<u32>>, d: nat, p: nat) -> bool {
    lead_index(reduce_all_by(x, basis, p)) >= d
}

/// The span of the echelon basis is invariant under the matrices: the image of every basis
/// vector under every matrix lies in it.
pub open spec fn invariant_under(basis: Seq<Seq<u32>>, ms: Seq<ModularMatrix>, d: nat, p: nat) -> bool {
    forall|j: int, i: int|
        0 <= j < basis.len() && 0 <= i < ms.len() ==> #[trigger] absorbed(mat_image(ms[i], basis[j]), basis, d, p)
}

/// Spins the subspace up under the matrices: every basis vector, including the ones added on the
/// way, is mapped by every matrix and the images are added. The subspace stays as it is exactly
/// when it is already invariant under the matrices; otherwise it grows.
fn spin(test: &mut ModularSubspace, matrices: &[ModularMatrix])
    requires
        old(test).wf(),
        acts_on(matrices@, old(test).d as nat, old(test).p as nat),
    ensures
        final(test).wf(),
        final(test).d == old(test).d,
        final(test).p == old(test).p,
        final(test).basis@.len() >= old(test).basis@.len(),
        final(test).basis@.len() == old(test).basis@.len() <==> invariant_under(
            old(test).basis_view(),
            matrices@,
            old(test).d as nat,
            old(test).p as nat,
        ),
        final(test).basis@.len() == old(test).basis@.len() ==> final(test).basis_view() == old(test).basis_view(),
{
    let ghost d = test.d;
    let ghost p = test.p;
    let ghost b0 = test.basis_view();
    let ghost n0 = test.basis@.len();
    let ghost closed = invariant_under(b0, matrices@, d as nat, p as nat);
    let mut head: usize = 0;
    while head < test.dim()
        invariant
            test.wf(),
            test.d == d,
            test.p == p,
            acts_on(matrices@, d as nat, p as nat),
            test.basis@.len() >= n0,
            head <= test.d,
            b0 == old(test).basis_view(),
            n0 == old(test).basis@.len(),
            closed == invariant_under(b0, matrices@, d as nat, p as nat),
            test.basis@.len() == n0 ==> test.basis_view() == b0,
            test.basis@.len() == n0 ==> forall|j: int, i: int|
                0 <= j < head && j < n0 && 0 <= i < matrices@.len() ==> #[trigger] absorbed(
                    mat_image(matrices@[i], b0[j]),
                    b0,
                    d as nat,
                    p as nat,
                ),
            closed ==> test.basis@.len() == n0,
        decreases test.d - head,
    {
        proof {
            lemma_echelon_len(test.basis_view(), d as nat, p as nat);
            assert(test.basis_view()[head as int] == test.basis@[head as int]@);
        }
        let cv = copy_row(&test.basis[head]);
        let mut mi: usize = 0;
        while mi < matrices.len()
            invariant
                test.wf(),
                test.d == d,
                test.p == p,
                acts_on(matrices@, d as nat, p as nat),
                test.basis@.len() >= n0,
                head < test.basis@.len(),
                cv@.len() == d,
                forall|c: int| 0 <= c < d ==> #[trigger] cv@[c] < p,
                b0 == old(test).basis_view(),
                n0 == old(test).basis@.len(),
                closed == invariant_under(b0, matrices@, d as nat, p as nat),
                test.basis@.len() == n0 ==> test.basis_view() == b0 && cv@ == b0[head as int],
                test.basis@.len() == n0 ==> forall|j: int, i: int|
                    0 <= j < head && j < n0 && 0 <= i < matrices@.len() ==> #[trigger] absorbed(
                        mat_image(matrices@[i], b0[j]),
                        b0,
                        d as nat,
                        p as nat,
                    ),
                test.basis@.len() == n0 ==> forall|i: int|
                    0 <= i < mi ==> #[trigger] absorbed(mat_image(matrices@[i], b0[head as int]), b0, d as nat, p as nat),
                closed ==> test.basis@.len() == n0,
            decreases matrices@.len() - mi,
        {
            let m = &matrices[mi];
            proof {
                assert(m.wf() && m.rows == d && m.cols == d && m.p == p);
            }
            let img = m.mul_vec(&cv);
            proof {
                assert(img@ =~= mat_image(*m, cv@));
            }
            let ghost before = test.basis_view();
            let ghost len_before = test.basis@.len();
            let grew = test.add_vector(img);
            proof {
                if test.basis@.len() == n0 {
                    assert(!grew);
                    assert(len_before == n0);
                    assert(before == b0);
                    assert(absorbed(mat_image(matrices@[mi as int], b0[head as int]), b0, d as nat, p as nat));
                }
                if closed {
                    assert(len_before == n0);
                    assert(before == b0);
                    assert(head < n0);
                    assert(absorbed(mat_image(matrices@[mi as int], b0[head as int]), b0, d as nat, p as nat));
                    assert(!grew);
                }
            }
            mi = mi + 1;
        }
        proof {
            lemma_echelon_len(test.basis_view(), d as nat, p as nat);
        }
        head = head + 1;
    }
    proof {
        if test.basis@.len() == n0 {
            assert forall|j: int, i: int| 0 <= j < b0.len() && 0 <= i < matrices@.len() implies #[trigger] absorbed(
                mat_image(matrices@[i], b0[j]),
                b0,
                d as nat,
                p as nat,
            ) by {
                assert(j < head);
            }
        }
    }
}

/// The position at which a vector with leading index `l` enters the echelon basis: after the
/// vectors that lead before `l`, before those that lead after it.
pub open spec fn insert_index(basis: Seq<Seq<u32>>, l: nat) -> int {
    choose|idx: int| #[trigger] splits_at(basis, l, idx)
}

/// The vectors before `idx` lead before `l`, those from `idx` on lead after it.
pub open spec fn splits_at(basis: Seq<Seq<u32>>, l: nat, idx: int) -> bool {
    &&& 0 <= idx <= basis.len()
    &&& forall|j: int| 0 <= j < idx ==> lead_index(#[trigger] basis[j]) < l
    &&& forall|j: int| idx <= j < basis.len() ==> lead_index(#[trigger] basis[j]) > l
}

/// The echelon basis that [`ModularSubspace::add_vector`] makes of `basis` and a vector `v`
/// outside its span.
pub open spec fn add_to_basis(basis: Seq<Seq<u32>>, v: Seq<u32>, p: nat) -> Seq<Seq<u32>> {
    let r = reduce_all_by(v, basis, p);
    extended_basis(basis, normalized(r, p), insert_index(basis, lead_index(r)), p)
}

/// No vector among the first `k` of `upper` extends `lower` by itself to a subspace that is
/// invariant under the matrices and smaller than `upper`.
pub open spec fn no_single_extension(
    lower: Seq<Seq<u32>>,
    upper: Seq<Seq<u32>>,
    ms: Seq<ModularMatrix>,
    d: nat,
    p: nat,
    k: int,
) -> bool {
    forall|bi: int|
        0 <= bi < k && !absorbed(upper[bi], lower, d, p) && #[trigger] invariant_under(add_to_basis(lower, upper[bi], p), ms, d, p)
            ==> lower.len() + 1 >= upper.len()
}

/// The insertion position is the only one with its property.
proof fn lemma_insert_index(basis: Seq<Seq<u32>>, l: nat, idx: int)
    requires
        0 <= idx <= basis.len(),
        forall|j: int| 0 <= j < idx ==> lead_index(#[trigger] basis[j]) < l,
        forall|j: int| idx <= j < basis.len() ==> lead_index(#[trigger] basis[j]) > l,
    ensures
        insert_index(basis, l) == idx,
{
    assert(splits_at(basis, l, idx));
    let k = insert_index(basis, l);
    assert(splits_at(basis, l, k));
    if k < idx {
        assert(lead_index(basis[k]) < l);
        assert(lead_index(basis[k]) > l);
    } else if k > idx {
        assert(lead_index(basis[idx]) < l);
        assert(lead_index(basis[idx]) > l);
    }
}

/// Tries to find a proper submodule strictly between `lower` and `upper` by spinning up
/// `lower` plus one basis vector of `upper`, and then `lower` plus one eigenvector of a matrix.
fn find_intermediate(
    lower: &ModularSubspace,
    upper: &ModularSubspace,
    matrices: &[ModularMatrix],
) -> (found: Option<ModularSubspace>)
    requires
        lower.wf(),
        upper.wf(),
        lower.d == upper.d,
        lower.p == upper.p,
        lower.basis@.len() < upper.basis@.len(),
        acts_on(matrices@, lower.d as nat, lower.p as nat),
    ensures
        found matches Some(t) ==> t.wf() && t.d == lower.d && t.p == lower.p && lower.basis@.len()
            < t.basis@.len() < upper.basis@.len(),
        found is None ==> no_single_extension(
            lower.basis_view(),
            upper.basis_view(),
            matrices@,
            lower.d as nat,
            lower.p as nat,
            upper.basis@.len() as int,
        ),
{
    let d = lower.d;
    let p = lower.p;
    let mut bi: usize = 0;
    while bi < upper.basis.len()
        invariant
            lower.wf(),
            upper.wf(),
            lower.d == d,
            upper.d == d,
            lower.p == p,
            upper.p == p,
            acts_on(matrices@, d as nat, p as nat),
            bi <= upper.basis@.len(),
            no_single_extension(lower.basis_view(), upper.basis_view(), matrices@, d as nat, p as nat, bi as int),
        decreases upper.basis@.len() - bi,
    {
        proof {
            assert(upper.basis_view()[bi as int] == upper.basis@[bi as int]@);
        }
        let mut test = lower.duplicate();
        let ghost lb = lower.basis_view();
        let ghost ub = upper.basis_view();
        let v = copy_row(&upper.basis[bi]);
        proof {
            assert forall|c: int| 0 <= c < v@.len() implies #[trigger] v@[c] < test.p by {
                assert(ub[bi as int][c] < p);
            }
        }
        let grew = test.add_vector(v);
        if grew {
            proof {
                let r = reduce_all_by(ub[bi as int], lb, p as nat);
                let idx = choose|idx: int|
                    #![trigger extended_basis(lb, normalized(r, p as nat), idx, p as nat)]
                    0 <= idx <= lb.len() && (forall|j: int| 0 <= j < idx ==> lead_index(#[trigger] lb[j]) < lead_index(r)) && (
                    forall|j: int| idx <= j < lb.len() ==> lead_index(#[trigger] lb[j]) > lead_index(r))
                        && test.basis_view() == extended_basis(lb, normalized(r, p as nat), idx, p as nat);
                lemma_insert_index(lb, lead_index(r), idx);
                assert(test.basis_view() == add_to_basis(lb, ub[bi as int], p as nat));
            }
            let ghost added = test.basis_view();
            spin(&mut test, matrices);
            if test.dim() < upper.dim() {
                return Some(test);
            }
            proof {
                assert forall|b: int|
                    0 <= b < bi + 1 && !absorbed(ub[b], lb, d as nat, p as nat) && #[trigger] invariant_under(
                        add_to_basis(lb, ub[b], p as nat),
                        matrices@,
                        d as nat,
                        p as nat,
                    ) implies lb.len() + 1 >= ub.len() by {
                    if b == bi {
                        assert(added == add_to_basis(lb, ub[b], p as nat));
                    }
                }
            }
        } else {
            proof {
                assert(absorbed(ub[bi as int], lb, d as nat, p as nat));
                assert forall|b: int|
                    0 <= b < bi + 1 && !absorbed(ub[b], lb, d as nat, p as nat) && #[trigger] invariant_under(
                        add_to_basis(lb, ub[b], p as nat),
                        matrices@,
                        d as nat,
                        p as nat,
                    ) implies lb.len() + 1 >= ub.len() by {}
            }
        }
        bi = bi + 1;
    }
    let mut mi: usize = 0;
    while mi < matrices.len()
        invariant
            lower.wf(),
            upper.wf(),
            lower.d == d,
            upper.d == d,
            lower.p == p,
            upper.p == p,
            acts_on(matrices@, d as nat, p as nat),
            no_single_extension(lower.basis_view(), upper.basis_view(), matrices@, d as nat, p as nat, upper.basis@.len() as int),
        decreases matrices@.len() - mi,
    {
        let mut lambda: u32 = 0;
        while lambda < p
            invariant
                lower.wf(),
                upper.wf(),
                lower.d == d,
                upper.d == d,
                lower.p == p,
                upper.p == p,
                mi < matrices@.len(),
                acts_on(matrices@, d as nat, p as nat),
                no_single_extension(lower.basis_view(), upper.basis_view(), matrices@, d as nat, p as nat, upper.basis@.len() as int),
            decreases p - lambda,
        {
            let lambda_id = ModularMatrix::identity(d, p).scalar_mul(lambda);
            let shifted = matrices[mi].sub(&lambda_id);
            let nulls = shifted.nullspace();
            let mut ni: usize = 0;
            while ni < nulls.len()
                invariant
                    lower.wf(),
                    upper.wf(),
                    lower.d == d,
                    upper.d == d,
                    lower.p == p,
                    upper.p == p,
                    acts_on(matrices@, d as nat, p as nat),
                    no_single_extension(lower.basis_view(), upper.basis_view(), matrices@, d as nat, p as nat, upper.basis@.len() as int),
                    shifted.cols == d,
                    shifted.p == p,
                    d == 0 ==> nulls@.len() == 0,
                    d > 0 ==> exists|m: Seq<Seq<u32>>, pc: Seq<usize>, fr: Seq<int>|
                        #[trigger] is_nullspace_basis(rows_of(nulls@), m, pc, fr, shifted.rows as nat, d as nat, p as nat),
                decreases nulls@.len() - ni,
            {
                proof {
                    let (m, pc, fr) = choose|m: Seq<Seq<u32>>, pc: Seq<usize>, fr: Seq<int>|
                        #[trigger] is_nullspace_basis(rows_of(nulls@), m, pc, fr, shifted.rows as nat, d as nat, p as nat);
                    assert(is_null_vector(rows_of(nulls@)[ni as int], m, pc, fr[ni as int], d as nat, p as nat));
                    assert(rows_of(nulls@)[ni as int] == nulls@[ni as int]@);
                    let v = nulls@[ni as int]@;
                    assert forall|c: int| 0 <= c < v.len() implies #[trigger] v[c] < p by {
                        if c == fr[ni as int] {
                        } else if pc.contains(c as usize) {
                            let w = choose|w: int| 0 <= w < pc.len() && #[trigger] pc[w] == c as usize;
                            assert(v[pc[w] as int] == ((p - (m[w][fr[ni as int]] as int) % (p as int)) % (p as int)));
                        }
                    }
                }
                let mut test = lower.duplicate();
                if test.add_vector(copy_row(&nulls[ni])) {
                    spin(&mut test, matrices);
                    if upper.dim() == d && test.dim() < d {
                        return Some(test);
                    }
                }
                ni = ni + 1;
            }
            lambda = lambda + 1;
        }
        mi = mi + 1;
    }
    None
}

/// Computes a composition series `0 = V_0 < V_1 < ... < V_k = F_p^d` of the module given by the
/// matrices, refining the chain `0 < F_p^d` until no gap of dimension two or more can be split.
pub fn composition_series(matrices: &[ModularMatrix], p: u32, d: usize) -> (chain: Vec<ModularSubspace>)
    requires
        spec_is_prime(p as int),
        acts_on(matrices@, d as nat, p as nat),
    ensures
        chain@.len() >= 1,
        chain@[0].basis@.len() == 0,
        chain@[chain@.len() - 1].basis@.len() == d,
        is_increasing_chain(chain@, d as nat, p as nat),
        forall|j: int|
            0 <= j < chain@.len() - 1 ==> #[trigger] no_single_extension(
                chain@[j].basis_view(),
                chain@[j + 1].basis_view(),
                matrices@,
                d as nat,
                p as nat,
                chain@[j + 1].basis@.len() as int,
            ),
{
    if d == 0 {
        let mut c: Vec<ModularSubspace> = Vec::new();
        c.push(ModularSubspace::zero(d, p));
        return c;
    }
    let mut chain: Vec<ModularSubspace> = Vec::new();
    chain.push(ModularSubspace::zero(d, p));
    chain.push(ModularSubspace::full(d, p));
    let mut refined = true;
    proof {
        lemma_chain_len(chain@, d as nat, p as nat);
    }
    while refined
        invariant
            spec_is_prime(p as int),
            acts_on(matrices@, d as nat, p as nat),
            d > 0,
            chain@.len() >= 2,
            chain@[0].basis@.len() == 0,
            chain@[chain@.len() - 1].basis@.len() == d,
            is_increasing_chain(chain@, d as nat, p as nat),
            chain@.len() <= d + 1,
            !refined ==> forall|j: int|
                0 <= j < chain@.len() - 1 ==> #[trigger] no_single_extension(
                    chain@[j].basis_view(),
                    chain@[j + 1].basis_view(),
                    matrices@,
                    d as nat,
                    p as nat,
                    chain@[j + 1].basis@.len() as int,
                ),
        decreases 2 * (d + 1 - chain@.len()) + if refined {
            1int
        } else {
            0int
        },
    {
        refined = false;
        let mut new_chain: Vec<ModularSubspace> = Vec::new();
        let ghost mut cnt: nat = 0;
        let mut i: usize = 0;
        while i < chain.len() - 1
            invariant
                acts_on(matrices@, d as nat, p as nat),
                chain@.len() >= 2,
                chain@[0].basis@.len() == 0,
                is_increasing_chain(chain@, d as nat, p as nat),
                is_increasing_chain(new_chain@, d as nat, p as nat),
                i <= chain@.len() - 1,
                new_chain@.len() == i + cnt,
                refined <==> cnt > 0,
                i == 0 ==> new_chain@.len() == 0,
                i > 0 ==> new_chain@[0].basis@.len() == 0,
                i > 0 ==> new_chain@[new_chain@.len() - 1].basis@.len() < chain@[i as int].basis@.len(),
                cnt == 0 ==> forall|j: int|
                    0 <= j < i ==> (#[trigger] new_chain@[j]).basis_view() == chain@[j].basis_view()
                        && new_chain@[j].basis@.len() == chain@[j].basis@.len(),
                cnt == 0 ==> forall|j: int|
                    0 <= j < i ==> #[trigger] no_single_extension(
                        chain@[j].basis_view(),
                        chain@[j + 1].basis_view(),
                        matrices@,
                        d as nat,
                        p as nat,
                        chain@[j + 1].basis@.len() as int,
                    ),
            decreases chain@.len() - 1 - i,
        {
            let lower = &chain[i];
            let upper = &chain[i + 1];
            proof {
                assert(chain@[i as int].basis@.len() < chain@[i + 1].basis@.len());
            }
            let ghost before = new_chain@;
            new_chain.push(lower.duplicate());
            proof {
                assert(is_increasing_chain(new_chain@, d as nat, p as nat)) by {
                    assert forall|a: int, b: int| 0 <= a < b < new_chain@.len() implies (#[trigger] new_chain@[a]).basis@.len()
                        < (#[trigger] new_chain@[b]).basis@.len() by {
                        if b == new_chain@.len() - 1 && a < b {
                            assert(new_chain@[a] == before[a]);
                            if a < before.len() - 1 {
                                assert(before[a].basis@.len() < before[before.len() - 1].basis@.len());
                            }
                        } else {
                            assert(new_chain@[a] == before[a]);
                            assert(new_chain@[b] == before[b]);
                        }
                    }
                    assert forall|k: int| 0 <= k < new_chain@.len() implies (#[trigger] new_chain@[k]).wf() && new_chain@[k].d == d
                        && new_chain@[k].p == p by {
                        if k < before.len() {
                            assert(new_chain@[k] == before[k]);
                        } else {
                            assert(lower.basis_view() == new_chain@[k].basis_view());
                        }
                    }
                }
            }
            if upper.dim() - lower.dim() > 1 {
                match find_intermediate(lower, upper, matrices) {
                    Some(t) => {
                        let ghost before2 = new_chain@;
                        new_chain.push(t);
                        refined = true;
                        proof {
                            cnt = cnt + 1;
                            assert forall|a: int, b: int| 0 <= a < b < new_chain@.len() implies (#[trigger] new_chain@[a]).basis@.len()
                                < (#[trigger] new_chain@[b]).basis@.len() by {
                                assert(new_chain@[a] == before2[a]);
                                if b < before2.len() {
                                    assert(new_chain@[b] == before2[b]);
                                } else if a < before2.len() - 1 {
                                    assert(before2[a].basis@.len() < before2[before2.len() - 1].basis@.len());
                                }
                            }
                            assert forall|k: int| 0 <= k < new_chain@.len() implies (#[trigger] new_chain@[k]).wf() && new_chain@[k].d == d
                                && new_chain@[k].p == p by {
                                if k < before2.len() {
                                    assert(new_chain@[k] == before2[k]);
                                }
                            }
                        }
                    },
                    None => {},
                }
            }
            proof {
                assert(new_chain@[0].basis@.len() == 0);
                if cnt == 0 {
                    if chain@[i + 1].basis@.len() - chain@[i as int].basis@.len() <= 1 {
                        assert(no_single_extension(
                            chain@[i as int].basis_view(),
                            chain@[i + 1].basis_view(),
                            matrices@,
                            d as nat,
                            p as nat,
                            chain@[i + 1].basis@.len() as int,
                        ));
                    }
                    assert forall|j: int| 0 <= j < i + 1 implies (#[trigger] new_chain@[j]).basis_view() == chain@[j].basis_view()
                        && new_chain@[j].basis@.len() == chain@[j].basis@.len() by {
                        if j < i {
                            assert(new_chain@[j] == before[j]);
                        }
                    }
                }
            }
            i = i + 1;
        }
        let ghost before = new_chain@;
        let last = chain.len() - 1;
        new_chain.push(chain[last].duplicate());
        proof {
            assert forall|a: int, b: int| 0 <= a < b < new_chain@.len() implies (#[trigger] new_chain@[a]).basis@.len()
                < (#[trigger] new_chain@[b]).basis@.len() by {
                assert(new_chain@[a] == before[a]);
                if b < before.len() {
                    assert(new_chain@[b] == before[b]);
                } else if a < before.len() - 1 {
                    assert(before[a].basis@.len() < before[before.len() - 1].basis@.len());
                }
            }
            assert forall|k: int| 0 <= k < new_chain@.len() implies (#[trigger] new_chain@[k]).wf() && new_chain@[k].d == d
                && new_chain@[k].p == p by {
                if k < before.len() {
                    assert(new_chain@[k] == before[k]);
                } else {
                    assert(chain@[last as int].basis_view() == new_chain@[k].basis_view());
                }
            }
            lemma_chain_len(new_chain@, d as nat, p as nat);
            if !refined {
                assert(new_chain@.len() == chain@.len());
                assert forall|j: int| 0 <= j < new_chain@.len() implies (#[trigger] new_chain@[j]).basis_view()
                    == chain@[j].basis_view() && new_chain@[j].basis@.len() == chain@[j].basis@.len() by {
                    if j < before.len() {
                        assert(new_chain@[j] == before[j]);
                    }
                }
                assert forall|j: int| 0 <= j < new_chain@.len() - 1 implies #[trigger] no_single_extension(
                    new_chain@[j].basis_view(),
                    new_chain@[j + 1].basis_view(),
                    matrices@,
                    d as nat,
                    p as nat,
                    new_chain@[j + 1].basis@.len() as int,
                ) by {
                    assert(no_single_extension(
                        chain@[j].basis_view(),
                        chain@[j + 1].basis_view(),
                        matrices@,
                        d as nat,
                        p as nat,
                        chain@[j + 1].basis@.len() as int,
                    ));
                }
            }
        }
        chain = new_chain;
    }
    chain
}

} // verus!
