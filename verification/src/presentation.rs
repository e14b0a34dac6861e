//! Power-commutator presentations of finite polycyclic groups.
use vstd::prelude::*;

use crate::text::{decimal, join, lemma_join_push, push_decimal, push_str};
use crate::util::ntheory::{seq_product, spec_is_prime};
use crate::word::{word_text, Term, Word};

verus! {

/// The number of pairs `(i, j)` with `0 <= j < i < n`.
pub open spec fn spec_num_commutators(n: nat) -> nat {
    (n * (if n >= 1 { (n - 1) as nat } else { 0nat })) / 2
}

/// The flat index of the pair `(i, j)`, `j < i`, in the lower-triangular layout.
pub open spec fn spec_commutator_index(i: nat, j: nat) -> nat {
    (i * (if i >= 1 { (i - 1) as nat } else { 0nat })) / 2 + j
}

/// `i * (i - 1)` is even, so the triangular numbers are exact.
pub proof fn lemma_triangle(i: nat)
    ensures
        (i * (if i >= 1 { (i - 1) as nat } else { 0nat })) % 2 == 0,
        i >= 1 ==> spec_num_commutators(i + 1) == spec_num_commutators(i) + i,
        i >= 1 ==> spec_commutator_index(i, 0) == spec_num_commutators(i),
    decreases i,
{
    if i >= 1 {
        lemma_triangle((i - 1) as nat);
        let a = (i - 1) as nat;
        assert(i * a == a * (a - 1 + 2) || a == 0) by (nonlinear_arith)
            requires
                i == a + 1,
        ;
        assert((i + 1) * i == i * a + 2 * i) by (nonlinear_arith)
            requires
                i == a + 1,
        ;
        if a >= 1 {
            assert(i * a == a * ((a - 1) as nat) + 2 * a) by (nonlinear_arith)
                requires
                    i == a + 1,
                    a >= 1,
            ;
        }
    }
}

/// Pairs `(i, j)` with `0 <= j < i < n` index the flat commutator table injectively and in bounds.
pub proof fn lemma_commutator_index_bounds(i: nat, j: nat, n: nat)
    requires
        j < i < n,
    ensures
        spec_commutator_index(i, j) < spec_num_commutators(n),
    decreases n,
{
    lemma_triangle(i);
    lemma_triangle(i + 1);
    if i + 1 < n {
        lemma_commutator_index_bounds(i, j, (n - 1) as nat);
        lemma_triangle((n - 1) as nat);
    }
}

/// A power-commutator (PC) presentation of a finite polycyclic group.
///
/// Generators `g0, ..., g{n-1}` with relative orders `p0, ..., p{n-1}`, power relations `gi^pi = w_ii`
/// and commutator relations `[gi, gj] = gi^-1 * gj^-1 * gi * gj = w_ij` for `0 <= j < i < n`.
/// Commutator words are stored in a flat lower-triangular sequence indexed by
/// [`commutator_index`](Self::commutator_index).
#[derive(Debug, Clone, PartialEq, Eq)]
pub struct Presentation {
    relative_orders: Vec<u32>,
    powers: Vec<Word>,
    commutators: Vec<Word>,
}

impl Presentation {
    /// The table sizes agree: `n` powers and `n (n - 1) / 2` commutators (and `n (n - 1)` fits in a `usize`).
    pub closed spec fn wf(&self) -> bool {
        &&& self.powers@.len() == self.relative_orders@.len()
        &&& self.commutators@.len() == spec_num_commutators(self.relative_orders@.len() as nat)
        &&& self.relative_orders@.len() * (self.relative_orders@.len() - 1) <= usize::MAX
    }

    /// The relative orders `p_0, ..., p_{n-1}`.
    pub closed spec fn ro(&self) -> Seq<u32> {
        self.relative_orders@
    }

    /// The number of generators `n`.
    pub open spec fn n(&self) -> nat {
        self.ro().len()
    }

    /// The terms of the power relation word `g_i^{p_i}`.
    pub closed spec fn pw(&self, i: int) -> Seq<Term> {
        self.powers@[i].terms@
    }

    /// The terms of the commutator relation word `[g_i, g_j]`, `j < i`.
    pub closed spec fn cm(&self, i: int, j: int) -> Seq<Term> {
        self.commutators@[spec_commutator_index(i as nat, j as nat) as int].terms@
    }

    /// All relative orders are prime and every relation word satisfies the PC condition:
    /// the word for `g_i^{p_i}` only contains generators `g_k` with `i < k < n`, and the word for
    /// `[g_i, g_j]` only contains generators `g_k` with `j < k < n`.
    pub open spec fn is_pc(&self) -> bool {
        &&& forall|i: int| 0 <= i < self.n() ==> spec_is_prime(#[trigger] self.ro()[i] as int)
        &&& forall|i: int, k: int|
            0 <= i < self.n() && 0 <= k < self.pw(i).len() ==> i < (#[trigger] self.pw(i)[k]).gen_index
                < self.n()
        &&& forall|i: int, j: int, k: int|
            0 <= j < i < self.n() && 0 <= k < self.cm(i, j).len() ==> j < (#[trigger] self.cm(
                i,
                j,
            )[k]).gen_index < self.n()
    }

    /// The number of generators of a well-formed presentation fits in a `usize`.
    pub proof fn lemma_n_fits(&self)
        requires
            self.wf(),
        ensures
            self.n() <= usize::MAX,
    {
        let n = self.n();
        if n >= 2 {
            assert(n <= n * (n - 1)) by (nonlinear_arith)
                requires
                    n >= 2,
            ;
        }
    }

    /// Creates a new `Presentation` from its constituent parts.
    pub fn new(relative_orders: Vec<u32>, powers: Vec<Word>, commutators: Vec<Word>) -> (pres: Self)
        requires
            powers@.len() == relative_orders@.len(),
            commutators@.len() == spec_num_commutators(relative_orders@.len() as nat),
            relative_orders@.len() * (relative_orders@.len() - 1) <= usize::MAX,
        ensures
            pres.wf(),
            pres.ro() == relative_orders@,
            forall|i: int| 0 <= i < pres.n() ==> pres.pw(i) == #[trigger] powers@[i].terms@,
            forall|i: int, j: int|
                0 <= j < i < pres.n() ==> pres.cm(i, j) == #[trigger] commutators@[spec_commutator_index(
                    i as nat,
                    j as nat,
                ) as int].terms@,
    {
        Presentation { relative_orders, powers, commutators }
    }

    /// Computes the number of commutator pairs `(i, j)` with `0 <= j < i < n`, which is `n * (n - 1) / 2`.
    pub fn num_commutators(num_gens: usize) -> (c: usize)
        requires
            num_gens * (if num_gens >= 1 { num_gens - 1 } else { 0int }) <= usize::MAX,
        ensures
            c == spec_num_commutators(num_gens as nat),
    {
        let m: usize = if num_gens >= 1 { num_gens - 1 } else { 0 };
        (num_gens * m) / 2
    }

    /// Computes the flat vector index `i * (i - 1) / 2 + j` for the commutator `[g_i, g_j]` where `i > j`.
    pub fn commutator_index(i: usize, j: usize) -> (idx: usize)
        requires
            i > j,
            i * (i - 1) <= usize::MAX,
            i * (i - 1) / 2 + j <= usize::MAX,
        ensures
            idx == spec_commutator_index(i as nat, j as nat),
    {
        (i * (i - 1)) / 2 + j
    }

    /// Returns the total number of generators `n` in the presentation.
    pub fn num_gens(&self) -> (n: usize)
        ensures
            n == self.n(),
    {
        self.relative_orders.len()
    }

    /// Returns the relative order `p_i` for generator `g_i`.
    pub fn relative_order(&self, i: usize) -> (p: u32)
        requires
            self.wf(),
            i < self.n(),
        ensures
            p == self.ro()[i as int],
    {
        self.relative_orders[i]
    }

    /// Returns a slice of all generator relative orders `[p_0, ..., p_{n-1}]`.
    pub fn relative_orders(&self) -> (ro: &[u32])
        ensures
            ro@ == self.ro(),
    {
        self.relative_orders.as_slice()
    }

    /// Returns a reference to the normal form [word](Word) for the power relation `g_i^{p_i}`.
    pub fn power(&self, i: usize) -> (w: &Word)
        requires
            self.wf(),
            i < self.n(),
        ensures
            w.terms@ == self.pw(i as int),
    {
        &self.powers[i]
    }

    /// Returns a slice of all power relation words `[g_0^{p_0}, ..., g_{n-1}^{p_{n-1}}]`.
    pub fn powers(&self) -> (ws: &[Word])
        requires
            self.wf(),
        ensures
            ws@.len() == self.n(),
            forall|i: int| 0 <= i < self.n() ==> #[trigger] ws@[i].terms@ == self.pw(i),
    {
        self.powers.as_slice()
    }

    /// Returns a reference to the normal form [word](Word) for the commutator relation `[g_i, g_j]`.
    pub fn commutator(&self, i: usize, j: usize) -> (w: &Word)
        requires
            self.wf(),
            j < i < self.n(),
        ensures
            w.terms@ == self.cm(i as int, j as int),
    {
        proof {
            lemma_commutator_index_bounds(i as nat, j as nat, self.n());
            lemma_triangle(i as nat);
            assert(i * (i - 1) <= self.n() * (self.n() - 1)) by (nonlinear_arith)
                requires
                    i < self.n(),
                    i >= 1,
            ;
            assert(spec_commutator_index(i as nat, j as nat) == i * (i - 1) / 2 + j);
        }
        let len = self.commutators.len();
        assert(i * (i - 1) / 2 + j < len);
        &self.commutators[Self::commutator_index(i, j)]
    }

    /// Returns a slice of all commutator relation words, in lower-triangular order.
    pub fn commutators(&self) -> (ws: &[Word])
        requires
            self.wf(),
        ensures
            ws@.len() == spec_num_commutators(self.n()),
            forall|i: int, j: int|
                0 <= j < i < self.n() ==> #[trigger] ws@[spec_commutator_index(
                    i as nat,
                    j as nat,
                ) as int].terms@ == self.cm(i, j),
    {
        self.commutators.as_slice()
    }

    /// Computes the total group order `p0 * p1 * ... * p_{n-1}`.
    pub fn order(&self) -> (ord: u128)
        requires
            forall|k: int| 0 <= k <= self.n() ==> #[trigger] seq_product(self.ro().take(k)) <= u128::MAX,
        ensures
            ord == seq_product(self.ro()),
    {
        let mut acc: u128 = 1;
        let mut i: usize = 0;
        assert(self.ro().take(0) =~= Seq::<u32>::empty());
        while i < self.relative_orders.len()
            invariant
                i <= self.n(),
                self.relative_orders@ == self.ro(),
                acc == seq_product(self.ro().take(i as int)),
                forall|k: int| 0 <= k <= self.n() ==> #[trigger] seq_product(self.ro().take(k)) <= u128::MAX,
            decreases self.n() - i,
        {
            assert(self.ro().take(i as int + 1).drop_last() =~= self.ro().take(i as int));
            assert(seq_product(self.ro().take(i as int + 1)) <= u128::MAX);
            acc = acc * (self.relative_orders[i] as u128);
            i = i + 1;
        }
        assert(self.ro().take(i as int) =~= self.ro());
        acc
    }
}

/// The text `g{i}`.
pub open spec fn gen_text(i: nat) -> Seq<char> {
    seq!['g'] + decimal(i)
}

/// The text `[g{i}, g{j}] = {w}` of the commutator relation `(i, j)` of `pres`.
pub open spec fn commutator_text(pres: Presentation, i: nat, j: nat) -> Seq<char> {
    seq!['['] + gen_text(i) + seq![',', ' '] + gen_text(j) + seq![']', ' ', '=', ' '] + word_text(
        pres.cm(i as int, j as int),
    )
}

/// The texts of the commutator relations `[g_i, g_j]` for `j < i < k`, row by row.
pub open spec fn commutator_rows(pres: Presentation, k: nat) -> Seq<Seq<char>>
    decreases k,
{
    if k <= 1 {
        Seq::<Seq<char>>::empty()
    } else {
        commutator_rows(pres, (k - 1) as nat) + Seq::new(
            (k - 1) as nat,
            |j: int| commutator_text(pres, (k - 1) as nat, j as nat),
        )
    }
}

/// The texts of the power relations `g{i}^{p_i} = {w}`.
pub open spec fn power_texts(pres: Presentation) -> Seq<Seq<char>> {
    Seq::new(
        pres.n(),
        |i: int|
            gen_text(i as nat) + seq!['^'] + decimal(pres.ro()[i] as nat) + seq![' ', '=', ' ']
                + word_text(pres.pw(i)),
    )
}

/// The textual form `< g0, ..., g{n-1} | relations >` of a presentation, `< >` when it has no generators.
pub open spec fn presentation_text(pres: Presentation) -> Seq<char> {
    if pres.n() == 0 {
        seq!['<', ' ', '>']
    } else {
        seq!['<', ' '] + join(Seq::new(pres.n(), |i: int| gen_text(i as nat)), seq![',', ' ']) + seq![
            ' ',
            '|',
            ' ',
        ] + join(power_texts(pres) + commutator_rows(pres, pres.n()), seq![',', ' ']) + seq![
            ' ',
            '>',
        ]
    }
}

impl Presentation {
    /// Returns the textual form of the presentation, e.g. `< g0, g1 | g0^2 = 1, g1^3 = 1, [g1, g0] = g1 >`.
    pub fn to_string(&self) -> (s: String)
        requires
            self.wf(),
        ensures
            s@ == presentation_text(*self),
    {
        proof {
            reveal_strlit("< >");
            reveal_strlit("< ");
            reveal_strlit(", ");
            reveal_strlit(" | ");
            reveal_strlit(" >");
            reveal_strlit("g");
            reveal_strlit("^");
            reveal_strlit(" = ");
            reveal_strlit("[");
            reveal_strlit("] = ");
        }
        let mut s = String::new();
        let n = self.num_gens();
        if n == 0 {
            push_str(&mut s, "< >");
            return s;
        }
        push_str(&mut s, "< ");
        let ghost names = Seq::new(self.n(), |i: int| gen_text(i as nat));
        let ghost sep = seq![',', ' '];
        let ghost start = s@;
        let mut i: usize = 0;
        while i < n
            invariant
                n == self.n(),
                i <= n,
                sep == seq![',', ' '],
                names == Seq::new(self.n(), |i: int| gen_text(i as nat)),
                s@ == start + join(names.take(i as int), sep),
                ", "@ == sep,
                "g"@ == seq!['g'],
            decreases n - i,
        {
            proof {
                lemma_join_push(names.take(i as int), gen_text(i as nat), sep);
                assert(names.take(i as int + 1) =~= names.take(i as int).push(gen_text(i as nat)));
            }
            if i > 0 {
                push_str(&mut s, ", ");
            }
            push_str(&mut s, "g");
            push_decimal(&mut s, i as u64);
            assert(s@ =~= start + join(names.take(i as int + 1), sep));
            i = i + 1;
        }
        assert(names.take(n as int) =~= names);
        push_str(&mut s, " | ");
        let ghost start2 = s@;
        let ghost pt = power_texts(*self);
        let mut i: usize = 0;
        while i < n
            invariant
                n == self.n(),
                self.wf(),
                i <= n,
                sep == seq![',', ' '],
                pt == power_texts(*self),
                s@ == start2 + join(pt.take(i as int), sep),
                ", "@ == sep,
                "g"@ == seq!['g'],
                "^"@ == seq!['^'],
                " = "@ == seq![' ', '=', ' '],
            decreases n - i,
        {
            let ghost x = pt[i as int];
            proof {
                lemma_join_push(pt.take(i as int), x, sep);
                assert(pt.take(i as int + 1) =~= pt.take(i as int).push(x));
            }
            if i > 0 {
                push_str(&mut s, ", ");
            }
            push_str(&mut s, "g");
            push_decimal(&mut s, i as u64);
            push_str(&mut s, "^");
            push_decimal(&mut s, self.relative_order(i) as u64);
            push_str(&mut s, " = ");
            self.power(i).write_to(&mut s);
            assert(s@ =~= start2 + join(pt.take(i as int + 1), sep));
            i = i + 1;
        }
        assert(pt.take(n as int) =~= pt);
        assert(pt + commutator_rows(*self, 1) =~= pt);
        let mut i: usize = 1;
        while i < n
            invariant
                n == self.n(),
                self.wf(),
                1 <= i <= n,
                pt.len() == n,
                sep == seq![',', ' '],
                pt == power_texts(*self),
                s@ == start2 + join(pt + commutator_rows(*self, i as nat), sep),
                ", "@ == sep,
                "g"@ == seq!['g'],
                "["@ == seq!['['],
                "] = "@ == seq![']', ' ', '=', ' '],
            decreases n - i,
        {
            let ghost row = Seq::new(i as nat, |j: int| commutator_text(*self, i as nat, j as nat));
            let ghost before = pt + commutator_rows(*self, i as nat);
            let mut j: usize = 0;
            while j < i
                invariant
                    n == self.n(),
                    self.wf(),
                    1 <= i < n,
                    j <= i,
                    pt.len() == n,
                    sep == seq![',', ' '],
                    row == Seq::new(i as nat, |j: int| commutator_text(*self, i as nat, j as nat)),
                    before.len() >= 1,
                    s@ == start2 + join(before + row.take(j as int), sep),
                    ", "@ == sep,
                    "g"@ == seq!['g'],
                    "["@ == seq!['['],
                    "] = "@ == seq![']', ' ', '=', ' '],
                decreases i - j,
            {
                let ghost x = row[j as int];
                proof {
                    lemma_join_push(before + row.take(j as int), x, sep);
                    assert(before + row.take(j as int + 1) =~= (before + row.take(j as int)).push(x));
                }
                push_str(&mut s, ", ");
                push_str(&mut s, "[");
                push_str(&mut s, "g");
                push_decimal(&mut s, i as u64);
                push_str(&mut s, ", ");
                push_str(&mut s, "g");
                push_decimal(&mut s, j as u64);
                push_str(&mut s, "] = ");
                self.commutator(i, j).write_to(&mut s);
                assert(s@ =~= start2 + join(before + row.take(j as int + 1), sep));
                j = j + 1;
            }
            assert(row.take(i as int) =~= row);
            assert(before + row =~= pt + commutator_rows(*self, (i + 1) as nat));
            i = i + 1;
        }
        push_str(&mut s, " >");
        assert(s@ =~= presentation_text(*self));
        s
    }
}

/// Two lists of words agree term by term.
fn words_equal(a: &Vec<Word>, b: &Vec<Word>) -> (r: bool)
    ensures
        r == (a@.map_values(|w: Word| w.terms@) == b@.map_values(|w: Word| w.terms@)),
{
    let ghost va = a@.map_values(|w: Word| w.terms@);
    let ghost vb = b@.map_values(|w: Word| w.terms@);
    if a.len() != b.len() {
        assert(va.len() != vb.len());
        return false;
    }
    let mut i: usize = 0;
    while i < a.len()
        invariant
            i <= a@.len(),
            a@.len() == b@.len(),
            va == a@.map_values(|w: Word| w.terms@),
            vb == b@.map_values(|w: Word| w.terms@),
            forall|k: int| 0 <= k < i ==> va[k] == vb[k],
        decreases a@.len() - i,
    {
        if !a[i].same_as(&b[i]) {
            assert(va[i as int] != vb[i as int]);
            return false;
        }
        i = i + 1;
    }
    assert(va =~= vb);
    true
}

impl Presentation {
    /// The terms of the power words and of the flat commutator table.
    pub closed spec fn relation_words(&self) -> (Seq<Seq<Term>>, Seq<Seq<Term>>) {
        (
            self.powers@.map_values(|w: Word| w.terms@),
            self.commutators@.map_values(|w: Word| w.terms@),
        )
    }

    /// Returns `true` if both presentations have the same relative orders and relation words.
    pub fn same_as(&self, other: &Presentation) -> (b: bool)
        ensures
            b == (self.ro() == other.ro() && self.relation_words() == other.relation_words()),
    {
        if self.relative_orders.len() != other.relative_orders.len() {
            return false;
        }
        let mut i: usize = 0;
        while i < self.relative_orders.len()
            invariant
                i <= self.ro().len(),
                self.ro().len() == other.ro().len(),
                forall|k: int| 0 <= k < i ==> self.ro()[k] == other.ro()[k],
            decreases self.ro().len() - i,
        {
            if self.relative_orders[i] != other.relative_orders[i] {
                return false;
            }
            i = i + 1;
        }
        assert(self.ro() =~= other.ro());
        let p = words_equal(&self.powers, &other.powers);
        let c = words_equal(&self.commutators, &other.commutators);
        p && c
    }
}

} // verus!
