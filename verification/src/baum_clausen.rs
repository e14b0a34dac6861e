//! Irreducible representations of supersolvable groups by the Baum-Clausen algorithm.
//!
//! For a finite supersolvable group given by a power-commutator presentation, the irreducible
//! representations adapted to a chief series are monomial over roots of unity. The algorithm
//! walks the chief series bottom-up: at each step every representation of the smaller subgroup
//! is either extended (it is invariant under the new generator) or induced along its orbit.
use vstd::prelude::*;

use crate::collection::term_fits;
use crate::element::{inverse_terms, Element};
use crate::generating_sequence::{find_exp, GeneratingSequence};
use crate::presentation::Presentation;
use crate::text::{decimal, push_decimal, push_str};
use crate::util::linalg::monomial_matrix::{
    hits, is_permutation, lemma_pow_add, mono_compose, mono_id, mono_pow, mono_valid, MonoView,
};
use crate::util::linalg::MonomialMatrix;
use crate::collector::{exps_to_terms, lemma_exps_to_terms_normal};
use crate::element::normal_form;
use crate::series::{chief_series, chief_shape, is_supersolvable};
use crate::util::ntheory::{extract_roots, spec_gcd, spec_is_prime};
use crate::word::{is_normal_terms, Term, Word};

verus! {

/// Errors arising during the Baum-Clausen construction.
#[derive(Debug, Clone, PartialEq, Eq, Structural)]
pub enum BaumClausenError {
    /// The given group presentation is not supersolvable.
    NotSupersolvable,
    /// Missing matrix for a generator in a representation.
    MissingMatrix { generator: usize, representation_id: usize },
    /// A referenced representation ID was not found.
    MissingRepresentation { id: usize },
    /// Missing conjugation entry `tau(g, F)`.
    MissingTauEntry { generator: usize, representation_id: usize },
    /// Missing intertwining matrix `X(g, F)`.
    MissingXEntry { generator: usize, representation_id: usize },
    /// The `p`-th roots of a phase could not be extracted modulo the exponent.
    RootExtractionFailed { shift: u32, order: u32, exponent: u32 },
    /// An induced representation has no orbit recorded.
    MissingChildren { representation_id: usize },
    /// Invalid transition between stages in the chief series.
    InvalidStageTransition,
}

impl BaumClausenError {
    /// The human-readable message of the error.
    pub open spec fn spec_text(self) -> Seq<char> {
        match self {
            BaumClausenError::NotSupersolvable => "Group is not supersolvable."@,
            BaumClausenError::MissingMatrix { generator, representation_id } => "Missing matrix for generator g"@
                + decimal(generator as nat) + " in representation "@ + decimal(representation_id as nat) + "."@,
            BaumClausenError::MissingRepresentation { id } => "Representation with ID "@ + decimal(id as nat)
                + " not found."@,
            BaumClausenError::MissingTauEntry { generator, representation_id } =>
                "Missing tau entry for generator g"@ + decimal(generator as nat) + " and representation "@
                + decimal(representation_id as nat) + "."@,
            BaumClausenError::MissingXEntry { generator, representation_id } => "Missing X entry for generator g"@
                + decimal(generator as nat) + " and representation "@ + decimal(representation_id as nat) + "."@,
            BaumClausenError::RootExtractionFailed { shift, order, exponent } => "Failed to extract "@
                + decimal(order as nat) + "-th root for shift "@ + decimal(shift as nat) + " modulo "@
                + decimal(exponent as nat) + "."@,
            BaumClausenError::MissingChildren { representation_id } => "Induced representation "@
                + decimal(representation_id as nat) + " has no children recorded."@,
            BaumClausenError::InvalidStageTransition => "Invalid stage transition encountered."@,
        }
    }

    /// Returns the human-readable message of the error.
    pub fn to_string(&self) -> (s: String)
        ensures
            s@ == self.spec_text(),
    {
        let mut s = String::new();
        match self {
            BaumClausenError::NotSupersolvable => {
                push_str(&mut s, "Group is not supersolvable.");
            },
            BaumClausenError::MissingMatrix { generator, representation_id } => {
                push_str(&mut s, "Missing matrix for generator g");
                push_decimal(&mut s, *generator as u64);
                push_str(&mut s, " in representation ");
                push_decimal(&mut s, *representation_id as u64);
                push_str(&mut s, ".");
            },
            BaumClausenError::MissingRepresentation { id } => {
                push_str(&mut s, "Representation with ID ");
                push_decimal(&mut s, *id as u64);
                push_str(&mut s, " not found.");
            },
            BaumClausenError::MissingTauEntry { generator, representation_id } => {
                push_str(&mut s, "Missing tau entry for generator g");
                push_decimal(&mut s, *generator as u64);
                push_str(&mut s, " and representation ");
                push_decimal(&mut s, *representation_id as u64);
                push_str(&mut s, ".");
            },
            BaumClausenError::MissingXEntry { generator, representation_id } => {
                push_str(&mut s, "Missing X entry for generator g");
                push_decimal(&mut s, *generator as u64);
                push_str(&mut s, " and representation ");
                push_decimal(&mut s, *representation_id as u64);
                push_str(&mut s, ".");
            },
            BaumClausenError::RootExtractionFailed { shift, order, exponent } => {
                push_str(&mut s, "Failed to extract ");
                push_decimal(&mut s, *order as u64);
                push_str(&mut s, "-th root for shift ");
                push_decimal(&mut s, *shift as u64);
                push_str(&mut s, " modulo ");
                push_decimal(&mut s, *exponent as u64);
                push_str(&mut s, ".");
            },
            BaumClausenError::MissingChildren { representation_id } => {
                push_str(&mut s, "Induced representation ");
                push_decimal(&mut s, *representation_id as u64);
                push_str(&mut s, " has no children recorded.");
            },
            BaumClausenError::InvalidStageTransition => {
                push_str(&mut s, "Invalid stage transition encountered.");
            },
        }
        s
    }
}

/// The product of the matrices of the terms of a word, `M_{g_1}^{e_1} ... M_{g_k}^{e_k}`, starting
/// from the identity of dimension `dim`.
pub open spec fn eval_terms(mats: Seq<MonoView>, ts: Seq<Term>, dim: nat, e: nat) -> MonoView
    decreases ts.len(),
{
    if ts.len() == 0 {
        mono_id(dim)
    } else {
        mono_compose(
            eval_terms(mats, ts.drop_last(), dim, e),
            mono_pow(mats[ts.last().gen_index as int], ts.last().exponent as nat, e),
            e,
        )
    }
}

/// An irreducible monomial representation built at a stage of the Baum-Clausen algorithm.
#[derive(Clone, Debug, PartialEq, Eq)]
pub struct Representation {
    /// Sequentially assigned identifier.
    pub id: usize,
    /// Dimension of the representation space.
    pub dim: usize,
    /// Root-of-unity exponent `e`.
    pub exponent: u32,
    /// Monomial matrix for each generator `g0, ..., g{n-1}`.
    pub matrices: Vec<MonomialMatrix>,
    /// Whether this representation was induced (`true`) or extended (`false`).
    pub is_induced: bool,
    /// Identifiers of the representations of the previous stage it comes from.
    pub children: Option<Vec<usize>>,
    /// For an extension, the identifiers of the sibling extensions of the same representation.
    pub cluster: Option<Vec<usize>>,
}

impl Representation {
    /// The matrices of the generators as views.
    pub open spec fn mats(&self) -> Seq<MonoView> {
        Seq::new(self.matrices@.len(), |g: int| self.matrices@[g].view())
    }

    /// The representation has one valid `e`-monomial matrix of dimension `dim` for each of the
    /// `n` generators, with `0 < e <= 2^31`.
    pub open spec fn wf(&self, n: nat) -> bool {
        &&& 0 < self.exponent <= 0x8000_0000
        &&& self.matrices@.len() == n
        &&& forall|g: int|
            0 <= g < n ==> (#[trigger] self.matrices@[g]).valid() && self.matrices@[g].perm@.len() == self.dim
                && self.matrices@[g].e == self.exponent
    }

    /// Evaluates a group element given as a [`Word`] to its [`MonomialMatrix`] in this representation.
    pub fn evaluate(&self, word: &Word) -> (m: MonomialMatrix)
        requires
            self.wf(self.matrices@.len() as nat),
            forall|i: int| 0 <= i < word.terms@.len() ==> (#[trigger] word.terms@[i]).gen_index < self.matrices@.len(),
        ensures
            m.valid(),
            m.e == self.exponent,
            m.perm@.len() == self.dim,
            m.view() == eval_terms(self.mats(), word.terms@, self.dim as nat, self.exponent as nat),
    {
        let ghost e = self.exponent as nat;
        let mut curr = MonomialMatrix::identity(self.dim, self.exponent);
        let mut k: usize = 0;
        proof {
            assert(word.terms@.take(0) =~= Seq::<Term>::empty());
        }
        while k < word.terms.len()
            invariant
                k <= word.terms@.len(),
                e == self.exponent,
                self.wf(self.matrices@.len() as nat),
                forall|i: int| 0 <= i < word.terms@.len() ==> (#[trigger] word.terms@[i]).gen_index < self.matrices@.len(),
                curr.valid(),
                curr.e == self.exponent,
                curr.perm@.len() == self.dim,
                curr.view() == eval_terms(self.mats(), word.terms@.take(k as int), self.dim as nat, e),
            decreases word.terms@.len() - k,
        {
            let t = word.terms[k];
            let matrix = &self.matrices[t.gen_index];
            let factor = matrix.pow(t.exponent as i64);
            proof {
                assert(0 <= t.gen_index < self.matrices@.len());
                assert(self.matrices@[t.gen_index as int].valid());
                assert(*matrix == self.matrices@[t.gen_index as int]);
                lemma_pow_add(matrix.view(), t.exponent as nat, 0, self.dim as nat, e);
                assert(word.terms@.take(k + 1).drop_last() =~= word.terms@.take(k as int));
                assert(word.terms@.take(k + 1).last() == t);
                assert(self.mats()[t.gen_index as int] == matrix.view());
            }
            curr = curr.compose(&factor);
            k = k + 1;
        }
        proof {
            assert(word.terms@.take(k as int) =~= word.terms@);
        }
        curr
    }

    /// Evaluates a group [`Element`] to its [`MonomialMatrix`] in this representation.
    pub fn evaluate_element(&self, element: &Element) -> (m: MonomialMatrix)
        requires
            self.wf(self.matrices@.len() as nat),
            forall|i: int|
                0 <= i < element.word.terms@.len() ==> (#[trigger] element.word.terms@[i]).gen_index
                    < self.matrices@.len(),
        ensures
            m.valid(),
            m.e == self.exponent,
            m.perm@.len() == self.dim,
            m.view() == eval_terms(self.mats(), element.word.terms@, self.dim as nat, self.exponent as nat),
    {
        self.evaluate(element.word())
    }
}

/// Checks that `m` is a valid `e`-monomial matrix of dimension `dim`.
fn check_matrix(m: &MonomialMatrix, dim: usize, e: u32) -> (b: bool)
    ensures
        b == (m.valid() && m.perm@.len() == dim && m.e == e),
{
    if m.perm.len() != dim || m.vals.len() != dim || m.e != e || e == 0 {
        return false;
    }
    let mut i: usize = 0;
    while i < dim
        invariant
            i <= dim,
            m.perm@.len() == dim,
            m.vals@.len() == dim,
            e > 0,
            m.e == e,
            forall|k: int| 0 <= k < i ==> m.perm@[k] < dim && m.vals@[k] < e,
        decreases dim - i,
    {
        if m.perm[i] >= dim || m.vals[i] >= e {
            return false;
        }
        i = i + 1;
    }
    true
}

/// Checks that `perm` is a permutation of `0..perm.len()`.
fn check_permutation(perm: &Vec<usize>) -> (b: bool)
    ensures
        b == is_permutation(perm@),
{
    let n = perm.len();
    let mut i: usize = 0;
    while i < n
        invariant
            i <= n,
            n == perm@.len(),
            forall|k: int| 0 <= k < i ==> perm@[k] < n,
        decreases n - i,
    {
        if perm[i] >= n {
            return false;
        }
        i = i + 1;
    }
    let mut inv: Vec<usize> = Vec::new();
    let mut k: usize = 0;
    while k < n
        invariant
            k <= n,
            inv@.len() == k,
        decreases n - k,
    {
        inv.push(0);
        k = k + 1;
    }
    let mut i: usize = 0;
    while i < n
        invariant
            i <= n,
            n == perm@.len(),
            inv@.len() == n,
            forall|k: int| 0 <= k < n ==> perm@[k] < n,
            forall|k: int| 0 <= k < i ==> inv@[perm@[k] as int] < n && perm@[inv@[perm@[k] as int] as int] == perm@[k],
        decreases n - i,
    {
        inv.set(perm[i], i);
        i = i + 1;
    }
    let mut j: usize = 0;
    while j < n
        invariant
            j <= n,
            n == perm@.len(),
            inv@.len() == n,
            forall|k: int| 0 <= k < n ==> perm@[k] < n,
            forall|k: int| 0 <= k < n ==> inv@[perm@[k] as int] < n && perm@[inv@[perm@[k] as int] as int] == perm@[k],
            forall|t: int| 0 <= t < j ==> inv@[t] < n && perm@[inv@[t] as int] == t,
        decreases n - j,
    {
        if inv[j] >= n || perm[inv[j]] != j {
            proof {
                if is_permutation(perm@) {
                    assert(hits(perm@, j as int));
                    let w = choose|w: int| 0 <= w < perm@.len() && #[trigger] perm@[w] == j;
                    assert(inv@[perm@[w] as int] < n && perm@[inv@[perm@[w] as int] as int] == perm@[w]);
                }
            }
            return false;
        }
        j = j + 1;
    }
    let mut i: usize = 0;
    while i < n
        invariant
            i <= n,
            n == perm@.len(),
            inv@.len() == n,
            forall|k: int| 0 <= k < n ==> perm@[k] < n,
            forall|t: int| 0 <= t < n ==> inv@[t] < n && perm@[inv@[t] as int] == t,
            forall|t: int| 0 <= t < i ==> inv@[perm@[t] as int] == t,
        decreases n - i,
    {
        if inv[perm[i]] != i {
            proof {
                let w = inv@[perm@[i as int] as int] as int;
                assert(perm@[w] == perm@[i as int]);
            }
            return false;
        }
        i = i + 1;
    }
    proof {
        assert forall|a: int, b: int| 0 <= a < b < n implies perm@[a] != perm@[b] by {
            if perm@[a] == perm@[b] {
                assert(inv@[perm@[a] as int] == a);
                assert(inv@[perm@[b] as int] == b);
            }
        }
        assert forall|t: int| 0 <= t < n implies #[trigger] hits(perm@, t) by {
            assert(perm@[inv@[t] as int] == t);
        }
    }
    true
}

/// An intertwiner entry is a valid `e`-monomial matrix where present.
pub open spec fn x_entry_ok(o: Option<MonomialMatrix>, e: u32) -> bool {
    match o {
        Some(m) => m.valid() && m.e == e,
        None => true,
    }
}

/// A stage of the Baum-Clausen algorithm along a chief series: the irreducible representations
/// of the current subgroup, and for each generator `g_j` above it the conjugate `tau(g_j, F)` of
/// each representation `F` and the intertwiner `X(g_j, F)`, indexed by generator, then by the
/// representation's identifier (`None` where no entry was recorded).
#[derive(Clone, Debug)]
pub struct BaumClausenStage<'a> {
    /// Current induction level (step index in the chief series, 0 for `{1}`).
    pub level: usize,
    /// Shared root-of-unity exponent `e` for all monomial matrices.
    pub exponent: u32,
    /// Irreducible representations computed at this stage.
    pub representations: Vec<Representation>,
    /// Intertwining matrices `X(g_j, F)`.
    pub x_dict: Vec<Vec<Option<MonomialMatrix>>>,
    /// Conjugation map `tau(g_j, F)`: the identifier of the conjugate representation.
    pub tau_dict: Vec<Vec<Option<usize>>>,
    /// Unprocessed generators belonging to higher levels in the chief series.
    pub higher_generators: Vec<usize>,
    /// Associated presentation.
    pub pres: &'a Presentation,
}

impl<'a> BaumClausenStage<'a> {
    /// The conjugation table has no entry for generator `g` and representation `id`.
    pub open spec fn tau_missing(&self, g: nat, id: nat) -> bool {
        !(g < self.tau_dict@.len() && id < self.tau_dict@[g as int]@.len() && self.tau_dict@[g as int]@[id as int] is Some)
    }

    /// The intertwiner table has no entry for generator `g` and representation `id`.
    pub open spec fn x_missing(&self, g: nat, id: nat) -> bool {
        !(g < self.x_dict@.len() && id < self.x_dict@[g as int]@.len() && self.x_dict@[g as int]@[id as int] is Some)
    }

    /// The errors that name a table entry name one that is missing, and a failed root
    /// extraction names a phase `shift` without `order` distinct `order`-th roots modulo `exponent`.
    pub open spec fn errors_named(&self, err: BaumClausenError) -> bool {
        match err {
            BaumClausenError::MissingTauEntry { generator, representation_id } => self.tau_missing(generator as nat, representation_id as nat),
            BaumClausenError::MissingXEntry { generator, representation_id } => self.x_missing(generator as nat, representation_id as nat),
            BaumClausenError::RootExtractionFailed { shift, order, exponent } => exponent == self.exponent && (spec_gcd(
                order as nat,
                exponent as nat,
            ) < order || ((shift as nat) % (exponent as nat)) % spec_gcd(order as nat, exponent as nat) != 0),
            _ => true,
        }
    }

    /// The stage is well formed: a collectable presentation, an exponent `0 < e <= 2^31`, the
    /// representations well formed with identifiers `0, 1, ...`, one table per generator,
    /// valid intertwiners, and higher generators in range, no more of them than levels left.
    pub open spec fn wf(&self) -> bool {
        let n = self.pres.n();
        &&& self.pres.collectable()
        &&& 0 < self.exponent <= 0x8000_0000
        &&& self.level + self.higher_generators@.len() <= n
        &&& forall|i: int| 0 <= i < self.higher_generators@.len() ==> #[trigger] self.higher_generators@[i] < n
        &&& forall|k: int|
            0 <= k < self.representations@.len() ==> (#[trigger] self.representations@[k]).wf(n)
                && self.representations@[k].exponent == self.exponent && self.representations@[k].id == k
        &&& self.x_dict@.len() == n
        &&& self.tau_dict@.len() == n
        &&& forall|g: int, k: int|
            0 <= g < n && 0 <= k < self.x_dict@[g]@.len() ==> x_entry_ok(#[trigger] self.x_dict@[g]@[k], self.exponent)
    }

    /// Initializes the trivial stage (level 0) with a single 1-dimensional trivial representation,
    /// every generator still to come, and `tau(g, 1) = 1`, `X(g, 1) = I` for each of them.
    pub fn trivial(pres: &'a Presentation, exponent: u32) -> (s: Self)
        ensures
            s.level == 0,
            s.exponent == exponent,
            s.pres == pres,
            s.representations@.len() == 1,
            s.representations@[0].id == 0,
            s.representations@[0].dim == 1,
            s.higher_generators@ == Seq::new(pres.n(), |g: int| g as usize),
            s.representations@[0].exponent == exponent,
            s.representations@[0].matrices@.len() == pres.n(),
            forall|g: int|
                0 <= g < pres.n() ==> (#[trigger] s.representations@[0].matrices@[g]).view() == mono_id(1)
                    && s.representations@[0].matrices@[g].e == exponent,
            s.tau_dict@.len() == pres.n(),
            forall|g: int| 0 <= g < pres.n() ==> (#[trigger] s.tau_dict@[g])@ == seq![Some(0usize)],
            s.x_dict@.len() == pres.n(),
            forall|g: int|
                0 <= g < pres.n() ==> (#[trigger] s.x_dict@[g])@.len() == 1 && (s.x_dict@[g]@[0] matches Some(m)
                    && m.view() == mono_id(1) && m.e == exponent),
            pres.collectable() && 0 < exponent <= 0x8000_0000 ==> s.wf(),
    {
        let n_gens = pres.num_gens();
        let mut matrices: Vec<MonomialMatrix> = Vec::new();
        let mut generators: Vec<usize> = Vec::new();
        let mut x_dict: Vec<Vec<Option<MonomialMatrix>>> = Vec::new();
        let mut tau_dict: Vec<Vec<Option<usize>>> = Vec::new();
        let mut g: usize = 0;
        while g < n_gens
            invariant
                g <= n_gens,
                n_gens == pres.n(),
                matrices@.len() == g,
                generators@ == Seq::new(g as nat, |i: int| i as usize),
                x_dict@.len() == g,
                tau_dict@.len() == g,
                forall|i: int| 0 <= i < g ==> (#[trigger] matrices@[i]).view() == mono_id(1) && matrices@[i].e == exponent,
                forall|i: int| 0 <= i < g ==> (#[trigger] x_dict@[i])@.len() == 1,
                forall|i: int| 0 <= i < g ==> (#[trigger] tau_dict@[i])@ == seq![Some(0usize)],
                forall|i: int, k: int|
                    0 <= i < g && 0 <= k < x_dict@[i]@.len() ==> ((#[trigger] x_dict@[i]@[k]) matches Some(m) && m.view()
                        == mono_id(1) && m.e == exponent),
            decreases n_gens - g,
        {
            matrices.push(MonomialMatrix::identity(1, exponent));
            generators.push(g);
            let mut x_map: Vec<Option<MonomialMatrix>> = Vec::new();
            x_map.push(Some(MonomialMatrix::identity(1, exponent)));
            x_dict.push(x_map);
            let mut tau_map: Vec<Option<usize>> = Vec::new();
            tau_map.push(Some(0));
            assert(tau_map@ =~= seq![Some(0usize)]);
            tau_dict.push(tau_map);
            g = g + 1;
            assert(generators@ =~= Seq::new(g as nat, |i: int| i as usize));
        }
        let trivial_rep = Representation {
            id: 0,
            dim: 1,
            exponent,
            matrices,
            is_induced: false,
            children: None,
            cluster: None,
        };
        let mut representations: Vec<Representation> = Vec::new();
        representations.push(trivial_rep);
        let s = BaumClausenStage {
            level: 0,
            exponent,
            representations,
            x_dict,
            tau_dict,
            higher_generators: generators,
            pres,
        };
        proof {
            if pres.collectable() && 0 < exponent <= 0x8000_0000 {
                assert(mono_valid(mono_id(1), 1, exponent as nat));
                assert(s.representations@[0].wf(pres.n()));
            }
        }
        s
    }
}

/// The sequence with every occurrence of `x` removed.
pub open spec fn without(s: Seq<usize>, x: usize) -> Seq<usize>
    decreases s.len(),
{
    if s.len() == 0 {
        s
    } else if s.last() == x {
        without(s.drop_last(), x)
    } else {
        without(s.drop_last(), x).push(s.last())
    }
}

/// Removing an element keeps the others, and shortens a sequence that holds it.
proof fn lemma_without(s: Seq<usize>, x: usize)
    ensures
        without(s, x).len() <= s.len(),
        s.contains(x) ==> without(s, x).len() < s.len(),
        forall|i: int| 0 <= i < without(s, x).len() ==> s.contains(#[trigger] without(s, x)[i]),
    decreases s.len(),
{
    if s.len() > 0 {
        lemma_without(s.drop_last(), x);
        let w = without(s.drop_last(), x);
        if s.contains(x) && s.last() != x {
            let i = choose|i: int| 0 <= i < s.len() && s[i] == x;
            assert(s.drop_last()[i] == x);
        }
        assert forall|i: int| 0 <= i < without(s, x).len() implies s.contains(#[trigger] without(s, x)[i]) by {
            if i < w.len() {
                assert(without(s, x)[i] == w[i]);
                let t = choose|t: int| 0 <= t < s.drop_last().len() && s.drop_last()[t] == w[i];
                assert(s[t] == w[i]);
            } else {
                assert(s[s.len() - 1] == s.last());
            }
        }
    }
}

/// The elements of `v` other than `x`, in order.
fn without_vec(v: &Vec<usize>, x: usize) -> (w: Vec<usize>)
    ensures
        w@ == without(v@, x),
{
    let mut w: Vec<usize> = Vec::new();
    let mut i: usize = 0;
    while i < v.len()
        invariant
            i <= v@.len(),
            w@ == without(v@.take(i as int), x),
        decreases v@.len() - i,
    {
        proof {
            assert(v@.take(i + 1).drop_last() =~= v@.take(i as int));
        }
        if v[i] != x {
            w.push(v[i]);
        }
        i = i + 1;
    }
    assert(v@.take(v@.len() as int) =~= v@);
    w
}

/// `n` copies of zero.
fn zeros_usize(n: usize) -> (v: Vec<usize>)
    ensures
        v@ == Seq::new(n as nat, |i: int| 0usize),
{
    let mut v: Vec<usize> = Vec::new();
    let mut i: usize = 0;
    while i < n
        invariant
            i <= n,
            v@ == Seq::new(i as nat, |k: int| 0usize),
        decreases n - i,
    {
        v.push(0);
        i = i + 1;
        assert(v@ =~= Seq::new(i as nat, |k: int| 0usize));
    }
    v
}

/// `n` copies of zero.
fn zeros_u32(n: usize) -> (v: Vec<u32>)
    ensures
        v@ == Seq::new(n as nat, |i: int| 0u32),
{
    let mut v: Vec<u32> = Vec::new();
    let mut i: usize = 0;
    while i < n
        invariant
            i <= n,
            v@ == Seq::new(i as nat, |k: int| 0u32),
        decreases n - i,
    {
        v.push(0);
        i = i + 1;
        assert(v@ =~= Seq::new(i as nat, |k: int| 0u32));
    }
    v
}

/// A copy of each matrix, with the same permutation, phases and exponent.
fn copy_matrices(ms: &Vec<MonomialMatrix>) -> (c: Vec<MonomialMatrix>)
    ensures
        c@.len() == ms@.len(),
        forall|g: int| 0 <= g < ms@.len() ==> (#[trigger] c@[g]).view() == ms@[g].view() && c@[g].e == ms@[g].e,
{
    let mut c: Vec<MonomialMatrix> = Vec::new();
    let mut g: usize = 0;
    while g < ms.len()
        invariant
            g <= ms@.len(),
            c@.len() == g,
            forall|h: int| 0 <= h < g ==> (#[trigger] c@[h]).view() == ms@[h].view() && c@[h].e == ms@[h].e,
        decreases ms@.len() - g,
    {
        c.push(ms[g].duplicate());
        g = g + 1;
    }
    c
}

/// A copy of a list of identifiers.
fn copy_ids(ids: &Vec<usize>) -> (c: Vec<usize>)
    ensures
        c@ == ids@,
{
    let mut c: Vec<usize> = Vec::new();
    let mut k: usize = 0;
    while k < ids.len()
        invariant
            k <= ids@.len(),
            c@ == ids@.take(k as int),
        decreases ids@.len() - k,
    {
        c.push(ids[k]);
        k = k + 1;
        assert(c@ =~= ids@.take(k as int));
    }
    assert(ids@.take(ids@.len() as int) =~= ids@);
    c
}

/// The block diagonal matrix `diag(m_0, ..., m_{k-1})` of a sequence of monomial matrices.
pub open spec fn block_diagonal(ms: Seq<MonoView>) -> MonoView
    decreases ms.len(),
{
    if ms.len() == 0 {
        (Seq::<usize>::empty(), Seq::<u32>::empty())
    } else {
        let a = block_diagonal(ms.drop_last());
        let b = ms.last();
        (a.0 + Seq::new(b.0.len(), |i: int| (b.0[i] + a.0.len()) as usize), a.1 + b.1)
    }
}

/// The matrix of generator `g` in each of the representations `ids` of `reps`.
pub open spec fn matrices_of(reps: Seq<Representation>, ids: Seq<usize>, g: int) -> Seq<MonoView> {
    Seq::new(ids.len(), |t: int| reps[ids[t] as int].matrices@[g].view())
}

/// The phase exponent of the first row of a monomial matrix, or 0 for the empty matrix.
pub open spec fn phase0(m: MonoView) -> nat {
    if m.1.len() > 0 {
        m.1[0] as nat
    } else {
        0
    }
}

/// The phase that the `p`-th power of an extension of `f` with intertwiner `x` must gain: that of
/// `f(g_i^p)`, given by the power relation word `pw`, less that of `x^p`, modulo the exponent.
pub open spec fn ext_shift(f: Representation, x: MonoView, pw: Seq<Term>, p: nat) -> nat {
    let e = f.exponent as nat;
    ((phase0(eval_terms(f.mats(), pw, f.dim as nat, e)) + e - phase0(mono_pow(x, p, e)) % e) % (e as int)) as nat
}

/// The normal form of the generator `g_g`.
pub open spec fn generator_word(pres: Presentation, g: nat) -> Seq<Term> {
    normal_form(pres, seq![Term { gen_index: g as usize, exponent: 1 }])
}

/// The exponent `a` with which `g_i` occurs in `g_j^-1 g_i g_j`, or 1 where it does not occur:
/// conjugation by `g_j` sends the `t`-th extension of a representation to the
/// `(l + t a)`-th extension of its conjugate.
pub open spec fn conj_exponent(pres: Presentation, g_i: nat, g_j: nat) -> u32 {
    let conj = normal_form(
        pres,
        inverse_terms(pres, generator_word(pres, g_j)) + normal_form(pres, generator_word(pres, g_i) + generator_word(pres, g_j)),
    );
    match find_exp(conj, g_i) {
        Some(a) => a,
        None => 1,
    }
}

/// The place of an extension among its siblings.
pub open spec fn cluster_pos(r: Representation) -> int {
    r.id - r.cluster->0@[0]
}

/// `c` is the solution below `e / gcd(p, e)` of `p c = s` modulo `e`.
pub open spec fn least_root(c: nat, p: nat, e: nat, s: nat) -> bool {
    c < e / spec_gcd(p, e) && (p * c) % e == s
}

/// The phase exponents of `x` shifted by `c`, modulo `e`.
pub open spec fn shifted_vals(x: MonoView, c: nat, e: nat) -> Seq<u32> {
    Seq::new(x.1.len(), |i: int| ((x.1[i] + c % e) % (e as int)) as u32)
}

/// The matrices of a new representation `d` of a step along `g_i` are built from those of the
/// previous stage `old` and the intertwiners `X(g_i, .)` in `xt`: an extension keeps the
/// matrices of its child for the other generators and takes, for `g_i`, `X(g_i, child)` times
/// the scalar `c0 + t e / gcd(p, e)`, where `t` is its place among its `p` siblings and `c0` a
/// solution below `e / gcd(p, e)` of `p c0 = ext_shift` modulo `e`; an induced representation
/// has the block diagonal matrices of its orbit for the other generators.
pub open spec fn built_from(old: Seq<Representation>, xt: Seq<Option<MonomialMatrix>>, g_i: int, pres: Presentation, d: Representation) -> bool {
    let n = pres.n();
    match d.children {
        Some(ch) => if d.is_induced {
            forall|g: int| 0 <= g < n && g != g_i ==> (#[trigger] d.matrices@[g]).view() == block_diagonal(matrices_of(old, ch@, g))
        } else {
            &&& forall|g: int| 0 <= g < n && g != g_i ==> (#[trigger] d.matrices@[g]).view() == old[ch@[0] as int].matrices@[g].view()
            &&& xt[ch@[0] as int] matches Some(x) && (d.matrices@[g_i].perm@ == x.perm@ && (d.cluster matches Some(cl) && (
                cl@.len() > 0 && exists|c0: nat|
                    #[trigger] least_root(c0, cl@.len(), d.exponent as nat, ext_shift(old[ch@[0] as int], x.view(), pres.pw(g_i), cl@.len()))
                        && d.matrices@[g_i].vals@ == shifted_vals(
                        x.view(),
                        c0 + ((d.id - cl@[0]) as nat) * ((d.exponent as nat) / spec_gcd(cl@.len(), d.exponent as nat)),
                        d.exponent as nat,
                    ))))
        },
        None => false,
    }
}

/// The representation `d` of a step along a generator of relative order `p` comes from the
/// representations `old` of the previous stage: an extension of its one child, of the same
/// dimension and with a cluster of `p` siblings, or the induction from an orbit of `p` children,
/// of `p` times their dimension.
pub open spec fn comes_from(old: Seq<Representation>, d: Representation, p: nat) -> bool {
    match d.children {
        Some(ch) => {
            &&& ch@.len() >= 1
            &&& forall|t: int| 0 <= t < ch@.len() ==> #[trigger] ch@[t] < old.len()
            &&& if d.is_induced {
                &&& ch@.len() == p
                &&& d.dim == p * old[ch@[0] as int].dim
                &&& d.cluster is None
            } else {
                &&& ch@.len() == 1
                &&& d.dim == old[ch@[0] as int].dim
                &&& d.cluster matches Some(cl) && cl@.len() == p
            }
        },
        None => false,
    }
}

/// The first phase of a matrix, or `0` for the empty matrix.
fn first_phase(m: &MonomialMatrix) -> (v: u32)
    ensures
        m.vals@.len() > 0 ==> v == m.vals@[0],
        m.vals@.len() == 0 ==> v == 0,
{
    if m.vals.len() > 0 {
        m.vals[0]
    } else {
        0
    }
}

impl<'a> BaumClausenStage<'a> {
    /// The recorded conjugate `tau(g, id)`, if any.
    fn lookup_tau(&self, g: usize, id: usize) -> (r: Option<usize>)
        ensures
            r == (if g < self.tau_dict@.len() && id < self.tau_dict@[g as int]@.len() {
                self.tau_dict@[g as int]@[id as int]
            } else {
                None::<usize>
            }),
    {
        if g < self.tau_dict.len() && id < self.tau_dict[g].len() {
            self.tau_dict[g][id]
        } else {
            None
        }
    }

    /// A copy of the recorded intertwiner `X(g, id)`, if any.
    fn lookup_x(&self, g: usize, id: usize) -> (r: Option<MonomialMatrix>)
        requires
            self.wf(),
        ensures
            r is Some <==> (g < self.x_dict@.len() && id < self.x_dict@[g as int]@.len()
                && self.x_dict@[g as int]@[id as int] is Some),
            r matches Some(m) ==> m.valid() && m.e == self.exponent && m.view()
                == self.x_dict@[g as int]@[id as int]->0.view(),
    {
        if g < self.x_dict.len() && id < self.x_dict[g].len() {
            match &self.x_dict[g][id] {
                Some(m) => {
                    proof {
                        assert(x_entry_ok(self.x_dict@[g as int]@[id as int], self.exponent));
                    }
                    Some(m.duplicate())
                },
                None => None,
            }
        } else {
            None
        }
    }

    /// Case 1 of a step: `f` is invariant under `g_i`, and extends in `p` ways, the matrix of `g_i`
    /// being `c X(g_i, f)` for each `p`-th root `c` of the phase of `f(g_i^p) X(g_i, f)^-p`.
    #[verifier::spinoff_prover]
    fn extend_representation(
        &self,
        f: &Representation,
        g_i: usize,
        p: u32,
        power_word: &Word,
        next_id: usize,
    ) -> (res: Result<Vec<Representation>, BaumClausenError>)
        requires
            self.wf(),
            f.wf(self.pres.n()),
            f.exponent == self.exponent,
            g_i < self.pres.n(),
            p >= 1,
            forall|i: int| 0 <= i < power_word.terms@.len() ==> (#[trigger] power_word.terms@[i]).gen_index < self.pres.n(),
        ensures
            !(res matches Err(BaumClausenError::NotSupersolvable)),
            res matches Err(err) ==> self.errors_named(err),
            res matches Ok(v) ==> v@.len() == p && forall|k: int|
                0 <= k < p ==> (#[trigger] v@[k]).wf(self.pres.n()) && v@[k].exponent == self.exponent && v@[k].id
                    == next_id + k && v@[k].dim == f.dim && !v@[k].is_induced && (v@[k].children matches Some(ch)
                    && ch@ == seq![f.id]) && (v@[k].cluster matches Some(cl) && cl@.len() == p),
            res matches Ok(v) ==> forall|k: int, g: int|
                0 <= k < v@.len() && 0 <= g < self.pres.n() && g != g_i ==> (#[trigger] v@[k].matrices@[g]).view()
                    == f.matrices@[g].view(),
            res matches Ok(v) ==> forall|k: int|
                0 <= k < v@.len() ==> (self.x_dict@[g_i as int]@[f.id as int] matches Some(x) && (
                #[trigger] v@[k].matrices@[g_i as int]).perm@ == x.perm@),
            res matches Ok(v) ==> (self.x_dict@[g_i as int]@[f.id as int] matches Some(x) && exists|c0: nat|
                #[trigger] least_root(c0, p as nat, self.exponent as nat, ext_shift(*f, x.view(), power_word.terms@, p as nat))
                    && forall|k: int|
                    0 <= k < p ==> (#[trigger] v@[k]).matrices@[g_i as int].vals@ == shifted_vals(
                        x.view(),
                        c0 + (k as nat) * ((self.exponent as nat) / spec_gcd(p as nat, self.exponent as nat)),
                        self.exponent as nat,
                    )),
            res matches Ok(v) ==> forall|k: int|
                0 <= k < p ==> ((#[trigger] v@[k]).cluster matches Some(cl) && cl@ == Seq::new(p as nat, |t: int| (next_id + t) as usize)),
    {
        let e = self.exponent;
        let x_if = match self.lookup_x(g_i, f.id) {
            Some(m) => m,
            None => {
                return Err(BaumClausenError::MissingXEntry { generator: g_i, representation_id: f.id });
            },
        };
        if x_if.perm.len() != f.dim {
            return Err(BaumClausenError::InvalidStageTransition);
        }
        let f_gp = f.evaluate(power_word);
        let x_if_p = x_if.pow(p as i64);
        let target_val = first_phase(&f_gp);
        let current_val = first_phase(&x_if_p);
        let shift = (target_val + e - (current_val % e)) % e;
        let roots = extract_roots(shift, p, e);
        if roots.len() < p as usize {
            return Err(BaumClausenError::RootExtractionFailed { shift, order: p, exponent: e });
        }
        let ghost e1 = (e as nat) / spec_gcd(p as nat, e as nat);
        proof {
            assert(shift as nat == ext_shift(*f, x_if.view(), power_word.terms@, p as nat));
            assert(roots@.len() > 0);
            assert(((shift as nat) % (e as nat)) % spec_gcd(p as nat, e as nat) == 0);
            vstd::arithmetic::div_mod::lemma_small_mod(shift as nat, e as nat);
            assert(((p as nat) * (roots@[0] as nat)) % (e as nat) == shift as nat);
        }
        if next_id > usize::MAX - (p as usize) {
            return Err(BaumClausenError::InvalidStageTransition);
        }
        let mut cluster_ids: Vec<usize> = Vec::new();
        let mut k: usize = 0;
        while k < p as usize
            invariant
                k <= p,
                next_id + p <= usize::MAX,
                cluster_ids@ == Seq::new(k as nat, |t: int| (next_id + t) as usize),
            decreases p - k,
        {
            cluster_ids.push(next_id + k);
            k = k + 1;
            assert(cluster_ids@ =~= Seq::new(k as nat, |t: int| (next_id + t) as usize));
        }
        let mut extensions: Vec<Representation> = Vec::new();
        let mut k: usize = 0;
        while k < p as usize
            invariant
                k <= p,
                p <= roots@.len(),
                next_id + p <= usize::MAX,
                self.wf(),
                f.wf(self.pres.n()),
                f.exponent == self.exponent,
                e == self.exponent,
                g_i < self.pres.n(),
                x_if.valid(),
                x_if.e == e,
                x_if.perm@.len() == f.dim,
                extensions@.len() == k,
                cluster_ids@.len() == p,
                forall|t: int, g: int|
                    0 <= t < k && 0 <= g < self.pres.n() && g != g_i ==> (#[trigger] extensions@[t].matrices@[g]).view()
                        == f.matrices@[g].view(),
                g_i < self.x_dict@.len() && f.id < self.x_dict@[g_i as int]@.len(),
                self.x_dict@[g_i as int]@[f.id as int] matches Some(x) && x.view() == x_if.view(),
                forall|t: int| 0 <= t < k ==> (#[trigger] extensions@[t].matrices@[g_i as int]).perm@ == x_if.perm@,
                e1 == (e as nat) / spec_gcd(p as nat, e as nat),
                forall|t: int| 0 <= t < roots@.len() ==> #[trigger] roots@[t] == roots@[0] + t * e1,
                cluster_ids@ == Seq::new(p as nat, |t: int| (next_id + t) as usize),
                forall|t: int|
                    0 <= t < k ==> (#[trigger] extensions@[t]).matrices@[g_i as int].vals@ == shifted_vals(x_if.view(), (roots@[0] as nat) + (t as nat) * e1, e as nat)
                        && (extensions@[t].cluster matches Some(cl) && cl@ == Seq::new(p as nat, |t: int| (next_id + t) as usize)),
                forall|t: int|
                    0 <= t < k ==> (#[trigger] extensions@[t]).wf(self.pres.n()) && extensions@[t].exponent == e
                        && extensions@[t].id == next_id + t && extensions@[t].dim == f.dim && !extensions@[t].is_induced
                        && (extensions@[t].children matches Some(ch) && ch@ == seq![f.id]) && (
                    extensions@[t].cluster matches Some(cl) && cl@.len() == p),
            decreases p - k,
        {
            let c_k = roots[k];
            let mut child: Vec<usize> = Vec::new();
            child.push(f.id);
            let mut matrices = copy_matrices(&f.matrices);
            let ghost copied = matrices@;
            let scaled = x_if.scalar_mul(c_k);
            proof {
                assert forall|i: int| 0 <= i < scaled.perm@.len() implies #[trigger] scaled.perm@[i] < f.dim && scaled.vals@[i]
                    < e by {
                    assert(x_if.perm@[i] < f.dim);
                }
            }
            matrices.set(g_i, scaled);
            let ghost set_ms = matrices@;
            proof {
                assert(f.matrices@.len() == self.pres.n());
                assert(copied.len() == self.pres.n());
            }
            let d_k = Representation {
                id: next_id + k,
                dim: f.dim,
                exponent: e,
                matrices,
                is_induced: false,
                children: Some(child),
                cluster: Some(copy_ids(&cluster_ids)),
            };
            proof {
                assert(child@ =~= seq![f.id]);
                assert forall|g: int| 0 <= g < self.pres.n() implies (#[trigger] d_k.matrices@[g]).valid()
                    && d_k.matrices@[g].perm@.len() == d_k.dim && d_k.matrices@[g].e == d_k.exponent by {
                    if g != g_i {
                        assert(f.matrices@[g].valid());
                    }
                }
            }
            let ghost old_ext = extensions@;
            extensions.push(d_k);
            proof {
                assert forall|t: int, g: int|
                    0 <= t < k + 1 && 0 <= g < self.pres.n() && g != g_i implies (#[trigger] extensions@[t].matrices@[g]).view()
                        == f.matrices@[g].view() by {
                    if t < k {
                        assert(extensions@[t] == old_ext[t]);
                    } else {
                        assert(extensions@[t] == d_k);
                        assert(d_k.matrices@ == set_ms);
                        assert(set_ms[g] == copied[g]);
                        assert(copied[g].view() == f.matrices@[g].view());
                    }
                }
                assert forall|t: int| 0 <= t < k + 1 implies (#[trigger] extensions@[t].matrices@[g_i as int]).perm@ == x_if.perm@ by {
                    if t < k {
                        assert(extensions@[t] == old_ext[t]);
                    }
                }
                assert forall|t: int|
                    0 <= t < k + 1 implies (#[trigger] extensions@[t]).matrices@[g_i as int].vals@ == shifted_vals(x_if.view(), (roots@[0] as nat) + (t as nat) * e1, e as nat)
                        && (extensions@[t].cluster matches Some(cl) && cl@ == Seq::new(p as nat, |t: int| (next_id + t) as usize)) by {
                    if t < k {
                        assert(extensions@[t] == old_ext[t]);
                    } else {
                        assert(extensions@[t] == d_k);
                        assert(d_k.matrices@ == set_ms);
                        assert(set_ms[g_i as int] == scaled);
                        assert(roots@[k as int] == roots@[0] + k * e1);
                        assert(scaled.vals@ =~= shifted_vals(x_if.view(), (roots@[0] as nat) + (t as nat) * e1, e as nat));
                    }
                }
            }
            k = k + 1;
        }
        proof {
            assert(roots@[0] < e1);
            assert(((p as nat) * (roots@[0] as nat)) % (e as nat) == ext_shift(*f, x_if.view(), power_word.terms@, p as nat));
            assert(least_root(roots@[0] as nat, p as nat, e as nat, ext_shift(*f, x_if.view(), power_word.terms@, p as nat)));
        }
        Ok(extensions)
    }
}

/// A row `k dim + r` of a block matrix of `p` blocks of size `dim` lies below `p dim`.
proof fn lemma_block_row(k: int, r: int, dim: int, p: int)
    requires
        0 <= k < p,
        0 <= r < dim,
    ensures
        0 <= k * dim + r < p * dim,
        k * dim + dim <= p * dim,
{
    assert(0 <= k * dim + r < p * dim && k * dim + dim <= p * dim) by (nonlinear_arith)
        requires
            0 <= k < p,
            0 <= r < dim,
    ;
}

impl<'a> BaumClausenStage<'a> {
    /// Case 2 of a step: the representations `orbit[0], ..., orbit[p-1]` are conjugate under
    /// `g_i` and induce one representation of dimension `p dim`: the direct sums of their
    /// matrices for the other generators, and for `g_i` the block matrix sending block `k` to
    /// block `k + 1` by `X(g_i, orbit[k])` and the last block to the first by
    /// `f_0(g_i^p) (X_{p-1} ... X_0)^-1`.
    fn induce_representation(
        &self,
        orbit: &Vec<usize>,
        g_i: usize,
        p: u32,
        power_word: &Word,
        next_id: usize,
    ) -> (res: Result<Representation, BaumClausenError>)
        requires
            self.wf(),
            orbit@.len() == p,
            p >= 1,
            forall|k: int| 0 <= k < p ==> #[trigger] orbit@[k] < self.representations@.len(),
            g_i < self.pres.n(),
            forall|i: int| 0 <= i < power_word.terms@.len() ==> (#[trigger] power_word.terms@[i]).gen_index < self.pres.n(),
        ensures
            !(res matches Err(BaumClausenError::NotSupersolvable)),
            res matches Err(err) ==> self.errors_named(err),
            res matches Ok(d) ==> d.wf(self.pres.n()) && d.exponent == self.exponent && d.id == next_id,
            res matches Ok(d) ==> d.is_induced && d.cluster is None && (d.children matches Some(ch) && ch@ == orbit@)
                && d.dim == p * self.representations@[orbit@[0] as int].dim,
            res matches Ok(d) ==> forall|g: int|
                0 <= g < self.pres.n() && g != g_i ==> (#[trigger] d.matrices@[g]).view() == block_diagonal(
                    matrices_of(self.representations@, orbit@, g),
                ),
    {
        let e = self.exponent;
        let n_gens = self.pres.num_gens();
        let pu = p as usize;
        let f = &self.representations[orbit[0]];
        let dim = f.dim;
        let full_dim = match pu.checked_mul(dim) {
            Some(v) => v,
            None => {
                return Err(BaumClausenError::InvalidStageTransition);
            },
        };
        // the direct sums for the other generators
        let mut matrices: Vec<MonomialMatrix> = Vec::new();
        let mut g: usize = 0;
        while g < n_gens
            invariant
                g <= n_gens,
                n_gens == self.pres.n(),
                self.wf(),
                e == self.exponent,
                orbit@.len() == p,
                pu == p,
                forall|k: int| 0 <= k < p ==> #[trigger] orbit@[k] < self.representations@.len(),
                matrices@.len() == g,
                forall|h: int|
                    0 <= h < g ==> (#[trigger] matrices@[h]).valid() && matrices@[h].perm@.len() == full_dim
                        && matrices@[h].e == e,
                forall|h: int|
                    0 <= h < g && h != g_i ==> (#[trigger] matrices@[h]).view() == block_diagonal(
                        matrices_of(self.representations@, orbit@, h),
                    ),
            decreases n_gens - g,
        {
            if g != g_i {
                let mut acc = MonomialMatrix::new(Vec::new(), Vec::new(), e);
                proof {
                    assert(acc.view() =~= block_diagonal(matrices_of(self.representations@, orbit@, g as int).take(0)));
                }
                let mut k: usize = 0;
                while k < pu
                    invariant
                        k <= pu,
                        pu == p,
                        g < n_gens,
                        n_gens == self.pres.n(),
                        self.wf(),
                        e == self.exponent,
                        orbit@.len() == p,
                        forall|t: int| 0 <= t < p ==> #[trigger] orbit@[t] < self.representations@.len(),
                        acc.perm@.len() <= full_dim,
                        acc.e == e,
                        acc.view() == block_diagonal(matrices_of(self.representations@, orbit@, g as int).take(k as int)),
                    decreases pu - k,
                {
                    let rep = &self.representations[orbit[k]];
                    let m = &rep.matrices[g];
                    proof {
                        assert(rep.wf(self.pres.n()));
                        assert(m.valid());
                    }
                    if m.perm.len() > full_dim - acc.perm.len() {
                        return Err(BaumClausenError::InvalidStageTransition);
                    }
                    let ghost ms = matrices_of(self.representations@, orbit@, g as int);
                    let ghost prev = acc.view();
                    acc = acc.direct_sum(m);
                    proof {
                        assert(ms.take(k + 1).drop_last() =~= ms.take(k as int));
                        assert(ms.take(k + 1).last() == m.view());
                        assert(acc.view() =~= block_diagonal(ms.take(k + 1)));
                    }
                    k = k + 1;
                }
                proof {
                    assert(matrices_of(self.representations@, orbit@, g as int).take(pu as int) =~= matrices_of(
                        self.representations@,
                        orbit@,
                        g as int,
                    ));
                }
                if !check_matrix(&acc, full_dim, e) {
                    return Err(BaumClausenError::InvalidStageTransition);
                }
                matrices.push(acc);
            } else {
                let id = MonomialMatrix::identity(full_dim, e);
                proof {
                    assert(mono_valid(mono_id(full_dim as nat), full_dim as nat, e as nat));
                }
                matrices.push(id);
            }
            g = g + 1;
        }
        // the partial products X_k = X(g_i, orbit[k-1]) ... X(g_i, orbit[0])
        let mut x_blocks: Vec<MonomialMatrix> = Vec::new();
        let first = MonomialMatrix::identity(dim, e);
        proof {
            assert(mono_valid(mono_id(dim as nat), dim as nat, e as nat));
        }
        x_blocks.push(first);
        let mut k: usize = 1;
        while k < pu
            invariant
                1 <= k <= pu,
                pu == p,
                self.wf(),
                e == self.exponent,
                orbit@.len() == p,
                forall|t: int| 0 <= t < p ==> #[trigger] orbit@[t] < self.representations@.len(),
                g_i < self.pres.n(),
                x_blocks@.len() == k,
                forall|t: int|
                    0 <= t < k ==> (#[trigger] x_blocks@[t]).valid() && x_blocks@[t].perm@.len() == dim
                        && x_blocks@[t].e == e,
            decreases pu - k,
        {
            let x = match self.lookup_x(g_i, orbit[k - 1]) {
                Some(m) => m,
                None => {
                    return Err(BaumClausenError::MissingXEntry { generator: g_i, representation_id: orbit[k - 1] });
                },
            };
            if x.perm.len() != dim {
                return Err(BaumClausenError::InvalidStageTransition);
            }
            let x_k = x.compose(&x_blocks[k - 1]);
            x_blocks.push(x_k);
            k = k + 1;
        }
        let f0_gp = f.evaluate(power_word);
        let last = &x_blocks[pu - 1];
        if !check_permutation(&last.perm) {
            return Err(BaumClausenError::InvalidStageTransition);
        }
        let last_inv = last.invert();
        if !check_matrix(&last_inv, dim, e) {
            return Err(BaumClausenError::InvalidStageTransition);
        }
        let b_last = f0_gp.compose(&last_inv);
        // the block matrix of g_i
        let mut gi_perm = zeros_usize(full_dim);
        let mut gi_vals = zeros_u32(full_dim);
        let mut k: usize = 0;
        while k < pu
            invariant
                k <= pu,
                pu == p,
                full_dim == pu * dim,
                self.wf(),
                e == self.exponent,
                orbit@.len() == p,
                forall|t: int| 0 <= t < p ==> #[trigger] orbit@[t] < self.representations@.len(),
                g_i < self.pres.n(),
                b_last.valid(),
                b_last.e == e,
                b_last.perm@.len() == dim,
                gi_perm@.len() == full_dim,
                gi_vals@.len() == full_dim,
            decreases pu - k,
        {
            let block = if k + 1 < pu {
                match self.lookup_x(g_i, orbit[k]) {
                    Some(m) => m,
                    None => {
                        return Err(BaumClausenError::MissingXEntry { generator: g_i, representation_id: orbit[k] });
                    },
                }
            } else {
                b_last.duplicate()
            };
            let target_block = if k + 1 < pu {
                k + 1
            } else {
                0
            };
            if block.perm.len() != dim {
                return Err(BaumClausenError::InvalidStageTransition);
            }
            let mut r: usize = 0;
            while r < dim
                invariant
                    r <= dim,
                    k < pu,
                    target_block < pu,
                    full_dim == pu * dim,
                    block.perm@.len() == dim,
                    block.vals@.len() == dim,
                    gi_perm@.len() == full_dim,
                    gi_vals@.len() == full_dim,
                decreases dim - r,
            {
                proof {
                    lemma_block_row(k as int, r as int, dim as int, pu as int);
                    lemma_block_row(target_block as int, 0, dim as int, pu as int);
                }
                let global_row = k * dim + r;
                if block.perm[r] > usize::MAX - target_block * dim {
                    return Err(BaumClausenError::InvalidStageTransition);
                }
                let global_col = target_block * dim + block.perm[r];
                gi_perm.set(global_row, global_col);
                gi_vals.set(global_row, block.vals[r]);
                r = r + 1;
            }
            k = k + 1;
        }
        let gi = MonomialMatrix::new(gi_perm, gi_vals, e);
        if !check_matrix(&gi, full_dim, e) {
            return Err(BaumClausenError::InvalidStageTransition);
        }
        matrices.set(g_i, gi);
        let orbit_ids = copy_ids(orbit);
        let d = Representation {
            id: next_id,
            dim: full_dim,
            exponent: e,
            matrices,
            is_induced: true,
            children: Some(orbit_ids),
            cluster: None,
        };
        Ok(d)
    }
}

/// The clusters of extensions: each base representation is below `old`, each cluster has `p`
/// identifiers below `new`.
pub open spec fn clusters_ok(clusters: Seq<(usize, Vec<usize>)>, old: nat, new: nat, p: nat) -> bool {
    forall|c: int|
        0 <= c < clusters.len() ==> (#[trigger] clusters[c]).0 < old && clusters[c].1@.len() == p && forall|t: int|
            0 <= t < p ==> #[trigger] clusters[c].1@[t] < new
}

/// The induced representations: each at a position below `new`, from an orbit of `p`
/// identifiers below `old`.
pub open spec fn orbits_ok(orbits: Seq<(usize, Vec<usize>)>, old: nat, new: nat, p: nat) -> bool {
    forall|o: int|
        0 <= o < orbits.len() ==> (#[trigger] orbits[o]).0 < new && orbits[o].1@.len() == p && forall|t: int|
            0 <= t < p ==> #[trigger] orbits[o].1@[t] < old
}

/// The clusters and induced representations own distinct positions: each cluster lists `p`
/// distinct extensions of its base, the bases differ, and the induced representations are marked
/// as such.
pub open spec fn owners_ok(
    reps: Seq<Representation>,
    clusters: Seq<(usize, Vec<usize>)>,
    orbits: Seq<(usize, Vec<usize>)>,
    p: nat,
) -> bool {
    &&& forall|c: int, t: int|
        0 <= c < clusters.len() && 0 <= t < p ==> !reps[#[trigger] clusters[c].1@[t] as int].is_induced && (
        reps[clusters[c].1@[t] as int].children matches Some(ch) && ch@ == seq![clusters[c].0])
    &&& forall|c: int, t1: int, t2: int|
        0 <= c < clusters.len() && 0 <= t1 < t2 < p ==> #[trigger] clusters[c].1@[t1] != #[trigger] clusters[c].1@[t2]
    &&& forall|c1: int, c2: int| 0 <= c1 < c2 < clusters.len() ==> #[trigger] clusters[c1].0 < #[trigger] clusters[c2].0
    &&& forall|o: int| 0 <= o < orbits.len() ==> reps[(#[trigger] orbits[o]).0 as int].is_induced && (reps[orbits[o].0 as int].children matches Some(ch) && ch@ == orbits[o].1@)
    &&& forall|o1: int, o2: int| 0 <= o1 < o2 < orbits.len() ==> #[trigger] orbits[o1].0 < #[trigger] orbits[o2].0
    &&& forall|c: int, t: int|
        0 <= c < clusters.len() && 0 <= t < p ==> #[trigger] clusters[c].1@[t] == clusters[c].1@[0] + t && (reps[
            clusters[c].1@[t] as int].cluster matches Some(cl) && cl@ == clusters[c].1@)
}

/// The conjugate in `tr` of the `t`-th extension in each of the first `k` clusters sits `t a`
/// places, modulo `p`, after the conjugate of the first one among its siblings.
pub open spec fn ext_order(
    tr: Seq<Option<usize>>,
    reps: Seq<Representation>,
    clusters: Seq<(usize, Vec<usize>)>,
    k: int,
    p: nat,
    a: nat,
) -> bool {
    forall|c: int, t: int|
        0 <= c < k && 0 <= t < p ==> (tr[#[trigger] clusters[c].1@[t] as int] matches Some(u) && (tr[clusters[c].1@[0] as int] matches Some(
            u0,
        ) && cluster_pos(reps[u as int]) == (cluster_pos(reps[u0 as int]) + t * a) % (p as int)))
}

/// The conjugate in `tr` of each extension in the first `k` clusters is an extension of the
/// conjugate in `old_tau` of its base.
pub open spec fn ext_targets(
    tr: Seq<Option<usize>>,
    reps: Seq<Representation>,
    clusters: Seq<(usize, Vec<usize>)>,
    old_tau: Seq<Option<usize>>,
    k: int,
    p: nat,
) -> bool {
    forall|c: int, t: int|
        0 <= c < k && 0 <= t < p ==> (tr[#[trigger] clusters[c].1@[t] as int] matches Some(u) && (u < reps.len()
            && !reps[u as int].is_induced && (old_tau[clusters[c].0 as int] matches Some(v) && (reps[u as int].children matches Some(
            cu,
        ) && cu@ == seq![v]))))
}

/// The conjugate in `tr` of the representation induced from each of the first `k` orbits is
/// induced from the orbit that holds the conjugate in `old_tau` of the first member.
pub open spec fn ind_targets(
    tr: Seq<Option<usize>>,
    reps: Seq<Representation>,
    orbits: Seq<(usize, Vec<usize>)>,
    old_tau: Seq<Option<usize>>,
    k: int,
) -> bool {
    forall|o: int|
        0 <= o < k ==> (tr[(#[trigger] orbits[o]).0 as int] matches Some(u) && (u < reps.len() && reps[u as int].is_induced && (
        old_tau[orbits[o].1@[0] as int] matches Some(v) && (reps[u as int].children matches Some(cu) && cu@.contains(v)))))
}

/// For each representation in `reps` with its conjugate in `new_tau`: the conjugate of an
/// extension of `f` is an extension of the conjugate of `f` in `old_tau`, and the conjugate of a
/// representation induced from an orbit is induced from the orbit that holds the conjugate of the
/// orbit's first member.
pub open spec fn conjugates_follow(reps: Seq<Representation>, new_tau: Seq<Option<usize>>, old_tau: Seq<Option<usize>>) -> bool {
    forall|k: int|
        0 <= k < reps.len() ==> ((#[trigger] reps[k]).children matches Some(ch) && (new_tau[k] matches Some(u) && (u < reps.len()
            && reps[u as int].is_induced == reps[k].is_induced && (old_tau[ch@[0] as int] matches Some(v) && (reps[
            u as int].children matches Some(cu) && (if reps[k].is_induced {
            cu@.contains(v)
        } else {
            cu@ == seq![v]
        }))))))
}

/// The tables of one higher generator for the next stage, against those of this stage: the
/// intertwiners and conjugates of the extensions and the conjugates of the induced
/// representations follow from those of the representations they come from.
#[verifier::opaque]
pub open spec fn row_ok(
    xrow: Seq<Option<MonomialMatrix>>,
    trow: Seq<Option<usize>>,
    reps: Seq<Representation>,
    clusters: Seq<(usize, Vec<usize>)>,
    orbits: Seq<(usize, Vec<usize>)>,
    old_x: Seq<Option<MonomialMatrix>>,
    old_tau: Seq<Option<usize>>,
    p: nat,
    a: nat,
) -> bool {
    &&& inherits_x(xrow, clusters, old_x, clusters.len() as int, p)
    &&& ext_targets(trow, reps, clusters, old_tau, clusters.len() as int, p)
    &&& ind_targets(trow, reps, orbits, old_tau, orbits.len() as int)
    &&& ext_order(trow, reps, clusters, clusters.len() as int, p, a)
}

/// Among the siblings of each extension in `reps`, conjugation by a generator with table
/// `new_tau` moves by `a`: the conjugate of the extension in place `t` sits `t a` places, modulo
/// the number of siblings, after the conjugate of the extension in place 0.
pub open spec fn conj_order(reps: Seq<Representation>, new_tau: Seq<Option<usize>>, a: nat) -> bool {
    forall|k: int|
        0 <= k < reps.len() && !(#[trigger] reps[k]).is_induced ==> (reps[k].cluster matches Some(cl) && (cl@.len() > 0 && (
        new_tau[k] matches Some(u) && (new_tau[cl@[0] as int] matches Some(u0) && cluster_pos(reps[u as int]) == (cluster_pos(
            reps[u0 as int],
        ) + cluster_pos(reps[k]) * a) % (cl@.len() as int)))))
}

/// Every induced representation is listed as that of some orbit.
pub open spec fn induced_listed(reps: Seq<Representation>, orbits: Seq<(usize, Vec<usize>)>) -> bool {
    forall|k: int| 0 <= k < reps.len() && (#[trigger] reps[k]).is_induced ==> exists|o: int| 0 <= o < orbits.len() && #[trigger] orbits[o].0 == k
}

/// The intertwiner of each extension in `xr` is that of its base in `old`.
pub open spec fn inherits_x(xr: Seq<Option<MonomialMatrix>>, clusters: Seq<(usize, Vec<usize>)>, old: Seq<Option<MonomialMatrix>>, k: int, p: nat) -> bool {
    forall|c: int, t: int|
        0 <= c < k && 0 <= t < p ==> (xr[#[trigger] clusters[c].1@[t] as int] matches Some(x) && old[clusters[c].0 as int] matches Some(
            y,
        ) && x.view() == y.view())
}

/// Every representation that is not induced is listed in some cluster.
pub open spec fn extensions_listed(reps: Seq<Representation>, clusters: Seq<(usize, Vec<usize>)>, p: nat) -> bool {
    forall|k: int|
        0 <= k < reps.len() && !(#[trigger] reps[k]).is_induced ==> exists|c: int, t: int|
            0 <= c < clusters.len() && 0 <= t < p && #[trigger] clusters[c].1@[t] == k
}

/// The intertwiner in `new_x` of each extension among `reps` is the intertwiner in `old_x` of the
/// representation it extends.
pub open spec fn inherits_from_base(
    reps: Seq<Representation>,
    new_x: Seq<Option<MonomialMatrix>>,
    old_x: Seq<Option<MonomialMatrix>>,
) -> bool {
    forall|k: int|
        0 <= k < reps.len() && !(#[trigger] reps[k]).is_induced ==> (reps[k].children matches Some(ch) && (ch@.len() == 1
            && (new_x[k] matches Some(x) && old_x[ch@[0] as int] matches Some(y) && x.view() == y.view())))
}

/// The representations are well formed for `n` generators, with exponent `e` and identifiers
/// `0, 1, ...`.
pub open spec fn reps_ok(reps: Seq<Representation>, n: nat, e: u32) -> bool {
    forall|k: int| 0 <= k < reps.len() ==> (#[trigger] reps[k]).wf(n) && reps[k].exponent == e && reps[k].id == k
}

impl<'a> BaumClausenStage<'a> {
    /// The tables of a higher generator `g_j` for the representations of the next stage: the
    /// conjugate and the intertwiner of each extension and each induced representation.
    #[verifier::spinoff_prover]
    #[verifier::rlimit(60)]
    fn conjugation_row(
        &self,
        g_j: usize,
        g_i: usize,
        p: u32,
        new_reps: &Vec<Representation>,
        clusters: &Vec<(usize, Vec<usize>)>,
        orbits: &Vec<(usize, Vec<usize>)>,
        base_to_cluster: &Vec<Option<usize>>,
        rep_to_induced: &Vec<Option<usize>>,
    ) -> (res: Result<(Vec<Option<MonomialMatrix>>, Vec<Option<usize>>), BaumClausenError>)
        requires
            self.wf(),
            g_j < self.pres.n(),
            g_i < self.pres.n(),
            p >= 1,
            reps_ok(new_reps@, self.pres.n(), self.exponent),
            clusters_ok(clusters@, self.representations@.len() as nat, new_reps@.len() as nat, p as nat),
            orbits_ok(orbits@, self.representations@.len() as nat, new_reps@.len() as nat, p as nat),
            base_to_cluster@.len() == self.representations@.len(),
            forall|k: int| 0 <= k < base_to_cluster@.len() ==> (#[trigger] base_to_cluster@[k] matches Some(c) ==> c < clusters@.len()),
            rep_to_induced@.len() == self.representations@.len(),
            forall|k: int| 0 <= k < rep_to_induced@.len() ==> (#[trigger] rep_to_induced@[k] matches Some(o) ==> o < orbits@.len()),
            owners_ok(new_reps@, clusters@, orbits@, p as nat),
            forall|k: int| 0 <= k < base_to_cluster@.len() ==> (#[trigger] base_to_cluster@[k] matches Some(c) ==> clusters@[c as int].0 == k),
            forall|k: int| 0 <= k < rep_to_induced@.len() ==> (#[trigger] rep_to_induced@[k] matches Some(o) ==> orbits@[o as int].1@.contains(k as usize)),
        ensures
            !(res matches Err(BaumClausenError::NotSupersolvable)),
            res matches Err(err) ==> self.errors_named(err),
            res matches Ok((xr, tr)) ==> xr@.len() == new_reps@.len() && tr@.len() == new_reps@.len() && forall|k: int|
                0 <= k < xr@.len() ==> x_entry_ok(#[trigger] xr@[k], self.exponent),
            res matches Ok((xr, tr)) ==> inherits_x(xr@, clusters@, self.x_dict@[g_j as int]@, clusters@.len() as int, p as nat),
            res matches Ok((xr, tr)) ==> ext_targets(tr@, new_reps@, clusters@, self.tau_dict@[g_j as int]@, clusters@.len() as int, p as nat),
            res matches Ok((xr, tr)) ==> ind_targets(tr@, new_reps@, orbits@, self.tau_dict@[g_j as int]@, orbits@.len() as int),
            res matches Ok((xr, tr)) ==> ext_order(tr@, new_reps@, clusters@, clusters@.len() as int, p as nat, conj_exponent(*self.pres, g_i as nat, g_j as nat) as nat),
    {
        let e = self.exponent;
        let n_new = new_reps.len();
        let pres = self.pres;
        let g_j_elem = Element::from_generator(g_j, 1, pres);
        let g_i_elem = Element::from_generator(g_i, 1, pres);
        let gi_gj = g_i_elem.product(&g_j_elem);
        let gj_inv = g_j_elem.inverse();
        let conj = gj_inv.product(&gi_gj);
        let mut a_j: u32 = 1;
        let mut t: usize = 0;
        proof {
            assert(conj.word.terms@.skip(0) =~= conj.word.terms@);
        }
        while t < conj.word.terms.len()
            invariant_except_break
                a_j == 1,
                find_exp(conj.word.terms@.skip(t as int), g_i as nat) == find_exp(conj.word.terms@, g_i as nat),
            invariant
                t <= conj.word.terms@.len(),
            ensures
                a_j == match find_exp(conj.word.terms@, g_i as nat) {
                    Some(a) => a,
                    None => 1u32,
                },
            decreases conj.word.terms@.len() - t,
        {
            proof {
                let rest = conj.word.terms@.skip(t as int);
                assert(rest[0] == conj.word.terms@[t as int]);
                assert(rest.skip(1) =~= conj.word.terms@.skip(t + 1));
            }
            if conj.word.terms[t].gen_index == g_i {
                a_j = conj.word.terms[t].exponent;
                break;
            }
            t = t + 1;
        }
        proof {
            assert(a_j == conj_exponent(*self.pres, g_i as nat, g_j as nat));
        }
        proof {
            assert forall|i: int| 0 <= i < conj.word.terms@.len() implies (#[trigger] conj.word.terms@[i]).gen_index
                < self.pres.n() by {}
        }
        let mut xr: Vec<Option<MonomialMatrix>> = Vec::new();
        let mut tr: Vec<Option<usize>> = Vec::new();
        let mut k: usize = 0;
        while k < n_new
            invariant
                k <= n_new,
                xr@.len() == k,
                tr@.len() == k,
                forall|i: int| 0 <= i < k ==> #[trigger] xr@[i] is None,
            decreases n_new - k,
        {
            xr.push(None);
            tr.push(None);
            k = k + 1;
        }
        // the extensions
        let mut c: usize = 0;
        while c < clusters.len()
            invariant
                c <= clusters@.len(),
                self.wf(),
                e == self.exponent,
                g_j < self.pres.n(),
                g_i < self.pres.n(),
                p >= 1,
                n_new == new_reps@.len(),
                reps_ok(new_reps@, self.pres.n(), e),
                clusters_ok(clusters@, self.representations@.len() as nat, n_new as nat, p as nat),
                base_to_cluster@.len() == self.representations@.len(),
                forall|k: int| 0 <= k < base_to_cluster@.len() ==> (#[trigger] base_to_cluster@[k] matches Some(c) ==> c < clusters@.len()),
                forall|i: int| 0 <= i < conj.word.terms@.len() ==> (#[trigger] conj.word.terms@[i]).gen_index < self.pres.n(),
                xr@.len() == n_new,
                tr@.len() == n_new,
                forall|i: int| 0 <= i < n_new ==> x_entry_ok(#[trigger] xr@[i], e),
                owners_ok(new_reps@, clusters@, orbits@, p as nat),
                inherits_x(xr@, clusters@, self.x_dict@[g_j as int]@, c as int, p as nat),
                ext_targets(tr@, new_reps@, clusters@, self.tau_dict@[g_j as int]@, c as int, p as nat),
                forall|k: int| 0 <= k < base_to_cluster@.len() ==> (#[trigger] base_to_cluster@[k] matches Some(c) ==> clusters@[c as int].0 == k),
                a_j == conj_exponent(*self.pres, g_i as nat, g_j as nat),
                ext_order(tr@, new_reps@, clusters@, c as int, p as nat, a_j as nat),
            decreases clusters@.len() - c,
        {
            let base_id = clusters[c].0;
            let ext_ids = &clusters[c].1;
            let pi = match self.lookup_tau(g_j, base_id) {
                Some(v) => v,
                None => {
                    return Err(BaumClausenError::MissingTauEntry { generator: g_j, representation_id: base_id });
                },
            };
            let tc = if pi < base_to_cluster.len() {
                base_to_cluster[pi]
            } else {
                None
            };
            let tc = match tc {
                Some(v) => v,
                None => {
                    return Err(BaumClausenError::MissingRepresentation { id: pi });
                },
            };
            let x_jf = match self.lookup_x(g_j, base_id) {
                Some(m) => m,
                None => {
                    return Err(BaumClausenError::MissingXEntry { generator: g_j, representation_id: base_id });
                },
            };
            proof {
                assert(clusters@[c as int].1@.len() == p);
                assert(ext_ids@[0] < n_new);
            }
            let d0 = &new_reps[ext_ids[0]];
            proof {
                assert(d0.wf(self.pres.n()));
            }
            let d0_w = d0.evaluate_element(&conj);
            if x_jf.perm.len() != d0.dim || !check_permutation(&x_jf.perm) {
                return Err(BaumClausenError::InvalidStageTransition);
            }
            let x_inv = x_jf.invert();
            if !check_matrix(&x_inv, d0.dim, e) {
                return Err(BaumClausenError::InvalidStageTransition);
            }
            let m_mat = x_jf.compose(&d0_w).compose(&x_inv);
            let target_phase = first_phase(&m_mat);
            let target_ids = &clusters[tc].1;
            let mut found_l: usize = 0;
            let mut l: usize = 0;
            while l < target_ids.len()
                invariant
                    l <= target_ids@.len(),
                    target_ids == clusters@[tc as int].1,
                    tc < clusters@.len(),
                    found_l <= l,
                    clusters_ok(clusters@, self.representations@.len() as nat, n_new as nat, p as nat),
                    n_new == new_reps@.len(),
                    reps_ok(new_reps@, self.pres.n(), e),
                    g_i < self.pres.n(),
                decreases target_ids@.len() - l,
            {
                let cand = &new_reps[target_ids[l]];
                proof {
                    assert(cand.wf(self.pres.n()));
                }
                let cand_phase = first_phase(&cand.matrices[g_i]);
                if cand_phase == target_phase {
                    found_l = l;
                    break;
                }
                l = l + 1;
            }
            let p_exts = ext_ids.len();
            let mut k: usize = 0;
            while k < p_exts
                invariant
                    k <= p_exts,
                    p_exts == ext_ids@.len(),
                    p_exts == p,
                    found_l <= p,
                    ext_ids == clusters@[c as int].1,
                    target_ids == clusters@[tc as int].1,
                    c < clusters@.len(),
                    tc < clusters@.len(),
                    clusters_ok(clusters@, self.representations@.len() as nat, n_new as nat, p as nat),
                    x_jf.valid(),
                    x_jf.e == e,
                    xr@.len() == n_new,
                    tr@.len() == n_new,
                    forall|i: int| 0 <= i < n_new ==> x_entry_ok(#[trigger] xr@[i], e),
                    owners_ok(new_reps@, clusters@, orbits@, p as nat),
                    inherits_x(xr@, clusters@, self.x_dict@[g_j as int]@, c as int, p as nat),
                    g_j < self.x_dict@.len(),
                    clusters@[c as int].0 < self.x_dict@[g_j as int]@.len(),
                    self.x_dict@[g_j as int]@[clusters@[c as int].0 as int] matches Some(y) && y.view() == x_jf.view(),
                    forall|t: int| 0 <= t < k ==> (xr@[#[trigger] ext_ids@[t] as int] matches Some(x) && x.view() == x_jf.view()),
                    ext_targets(tr@, new_reps@, clusters@, self.tau_dict@[g_j as int]@, c as int, p as nat),
                    n_new == new_reps@.len(),
                    clusters@[tc as int].0 == pi,
                    g_j < self.tau_dict@.len(),
                    clusters@[c as int].0 < self.tau_dict@[g_j as int]@.len(),
                    self.tau_dict@[g_j as int]@[clusters@[c as int].0 as int] == Some(pi),
                    forall|t: int| 0 <= t < k ==> (tr@[#[trigger] ext_ids@[t] as int] matches Some(u) && (u < new_reps@.len()
                        && !new_reps@[u as int].is_induced && (new_reps@[u as int].children matches Some(cu) && cu@ == seq![pi]))),
                    ext_order(tr@, new_reps@, clusters@, c as int, p as nat, a_j as nat),
                    forall|t: int| 0 <= t < k ==> #[trigger] tr@[ext_ids@[t] as int] == Some(target_ids@[((found_l + t * a_j) % (p as int)) as int]),
                decreases p_exts - k,
            {
                assert((k as u64) * (a_j as u64) <= 0xffff_ffff * 0xffff_ffffu64) by (nonlinear_arith)
                    requires
                        k < p_exts,
                        p_exts == p,
                        p <= 0xffff_ffff,
                        a_j <= 0xffff_ffff,
                ;
                let target_idx = ((found_l as u64 + (k as u64) * (a_j as u64)) % (p_exts as u64)) as usize;
                if target_idx >= target_ids.len() {
                    return Err(BaumClausenError::InvalidStageTransition);
                }
                proof {
                    assert(target_idx as int == (found_l + k * a_j) % (p as int));
                }
                let target_id = target_ids[target_idx];
                let d_k_id = ext_ids[k];
                let ghost xr_before = xr@;
                let ghost tr_before = tr@;
                proof {
                    assert(target_ids@[target_idx as int] < n_new);
                    assert(!new_reps@[target_id as int].is_induced && (new_reps@[target_id as int].children matches Some(cu) && cu@ == seq![clusters@[tc as int].0]));
                }
                tr.set(d_k_id, Some(target_id));
                xr.set(d_k_id, Some(x_jf.duplicate()));
                proof {
                    assert forall|c2: int, t: int| 0 <= c2 < c && 0 <= t < p implies (tr@[#[trigger] clusters@[c2].1@[t] as int] matches Some(u) && (u < new_reps@.len()
                        && !new_reps@[u as int].is_induced && (self.tau_dict@[g_j as int]@[clusters@[c2].0 as int] matches Some(v) && (new_reps@[u as int].children matches Some(
                        cu,
                    ) && cu@ == seq![v])))) by {
                        let id = clusters@[c2].1@[t];
                        assert(new_reps@[id as int].children->0@ == seq![clusters@[c2].0]);
                        assert(new_reps@[ext_ids@[k as int] as int].children->0@ == seq![clusters@[c as int].0]);
                        assert(clusters@[c2].0 < clusters@[c as int].0);
                        if id == d_k_id {
                            assert(seq![clusters@[c2].0]
                                [0] == seq![clusters@[c as int].0][0]);
                        }
                        assert(tr@[id as int] == tr_before[id as int]);
                    }
                    assert forall|t: int| 0 <= t < k + 1 implies (tr@[#[trigger] ext_ids@[t] as int] matches Some(u) && (u < new_reps@.len()
                        && !new_reps@[u as int].is_induced && (new_reps@[u as int].children matches Some(cu) && cu@ == seq![pi]))) by {
                        if t < k {
                            assert(ext_ids@[t] != ext_ids@[k as int]);
                        }
                    }
                    assert forall|t: int| 0 <= t < k + 1 implies #[trigger] tr@[ext_ids@[t] as int] == Some(target_ids@[((found_l + t * a_j) % (p as int)) as int]) by {
                        if t < k {
                            assert(ext_ids@[t] != ext_ids@[k as int]);
                        }
                    }
                    assert forall|c2: int, t: int| 0 <= c2 < c && 0 <= t < p implies (tr@[#[trigger] clusters@[c2].1@[t] as int] matches Some(u) && (tr@[clusters@[c2].1@[0] as int] matches Some(
                        u0,
                    ) && cluster_pos(new_reps@[u as int]) == (cluster_pos(new_reps@[u0 as int]) + t * a_j) % (p as int))) by {
                        assert(clusters@[c2].0 < clusters@[c as int].0);
                        let id = clusters@[c2].1@[t];
                        let id0 = clusters@[c2].1@[0];
                        assert(new_reps@[id as int].children->0@ == seq![clusters@[c2].0]);
                        assert(new_reps@[id0 as int].children->0@ == seq![clusters@[c2].0]);
                        assert(new_reps@[ext_ids@[k as int] as int].children->0@ == seq![clusters@[c as int].0]);
                        if id == d_k_id {
                            assert(seq![clusters@[c2].0][0] == seq![clusters@[c as int].0][0]);
                        }
                        if id0 == d_k_id {
                            assert(seq![clusters@[c2].0][0] == seq![clusters@[c as int].0][0]);
                        }
                        assert(tr@[id as int] == tr_before[id as int]);
                        assert(tr@[id0 as int] == tr_before[id0 as int]);
                    }
                    assert forall|c2: int, t: int| 0 <= c2 < c && 0 <= t < p implies (xr@[#[trigger] clusters@[c2].1@[t] as int] matches Some(x)
                        && self.x_dict@[g_j as int]@[clusters@[c2].0 as int] matches Some(y) && x.view() == y.view()) by {
                        let id = clusters@[c2].1@[t];
                        assert(new_reps@[id as int].children->0@ == seq![clusters@[c2].0]);
                        assert(new_reps@[ext_ids@[k as int] as int].children->0@ == seq![clusters@[c as int].0]);
                        assert(clusters@[c2].0 < clusters@[c as int].0);
                        if id == d_k_id {
                            assert(seq![clusters@[c2].0]
                                [0] == seq![clusters@[c as int].0][0]);
                        }
                        assert(xr@[id as int] == xr_before[id as int]);
                    }
                    assert forall|t: int| 0 <= t < k + 1 implies (xr@[#[trigger] ext_ids@[t] as int] matches Some(x) && x.view() == x_jf.view()) by {
                        if t < k {
                            assert(ext_ids@[t] != ext_ids@[k as int]);
                        }
                    }
                }
                k = k + 1;
            }
            proof {
                assert forall|c2: int, t: int| 0 <= c2 < c + 1 && 0 <= t < p implies (xr@[#[trigger] clusters@[c2].1@[t] as int] matches Some(x)
                    && self.x_dict@[g_j as int]@[clusters@[c2].0 as int] matches Some(y) && x.view() == y.view()) by {
                    if c2 == c {
                        assert(clusters@[c2].1@[t] == ext_ids@[t]);
                    }
                }
                assert forall|c2: int, t: int| 0 <= c2 < c + 1 && 0 <= t < p implies (tr@[#[trigger] clusters@[c2].1@[t] as int] matches Some(u) && (u < new_reps@.len()
                    && !new_reps@[u as int].is_induced && (self.tau_dict@[g_j as int]@[clusters@[c2].0 as int] matches Some(v) && (new_reps@[u as int].children matches Some(
                    cu,
                ) && cu@ == seq![v])))) by {
                    if c2 == c {
                        assert(clusters@[c2].1@[t] == ext_ids@[t]);
                    }
                }
                assert forall|c2: int, t: int| 0 <= c2 < c + 1 && 0 <= t < p implies (tr@[#[trigger] clusters@[c2].1@[t] as int] matches Some(u) && (tr@[clusters@[c2].1@[0] as int] matches Some(
                    u0,
                ) && cluster_pos(new_reps@[u as int]) == (cluster_pos(new_reps@[u0 as int]) + t * a_j) % (p as int))) by {
                    if c2 == c {
                        let pp = p as int;
                        let i_t = (found_l + t * a_j) % pp;
                        let i_0 = (found_l + 0 * a_j) % pp;
                        assert(clusters@[c2].1@[t] == ext_ids@[t]);
                        assert(clusters@[c2].1@[0] == ext_ids@[0]);
                        assert(tr@[ext_ids@[t] as int] == Some(target_ids@[i_t]));
                        assert(tr@[ext_ids@[0] as int] == Some(target_ids@[i_0]));
                        let u = target_ids@[i_t];
                        let u0 = target_ids@[i_0];
                        assert(clusters@[tc as int].1@[i_t] == clusters@[tc as int].1@[0] + i_t);
                        assert(clusters@[tc as int].1@[i_0] == clusters@[tc as int].1@[0] + i_0);
                        assert(new_reps@[u as int].cluster->0@ == clusters@[tc as int].1@);
                        assert(new_reps@[u0 as int].cluster->0@ == clusters@[tc as int].1@);
                        assert(new_reps@[u as int].id == u);
                        assert(new_reps@[u0 as int].id == u0);
                        assert(cluster_pos(new_reps@[u as int]) == i_t);
                        assert(cluster_pos(new_reps@[u0 as int]) == i_0);
                        assert(0 * a_j == 0);
                        vstd::arithmetic::div_mod::lemma_add_mod_noop(found_l as int, t * a_j, pp);
                        vstd::arithmetic::div_mod::lemma_mod_twice(found_l as int, pp);
                        vstd::arithmetic::div_mod::lemma_add_mod_noop(found_l as int % pp, t * a_j, pp);
                    }
                }
            }
            c = c + 1;
        }
        // the induced representations
        let pu = p as usize;
        let mut o: usize = 0;
        while o < orbits.len()
            invariant
                o <= orbits@.len(),
                self.wf(),
                e == self.exponent,
                g_j < self.pres.n(),
                g_i < self.pres.n(),
                p >= 1,
                pu == p,
                n_new == new_reps@.len(),
                reps_ok(new_reps@, self.pres.n(), e),
                orbits_ok(orbits@, self.representations@.len() as nat, n_new as nat, p as nat),
                rep_to_induced@.len() == self.representations@.len(),
                forall|k: int| 0 <= k < rep_to_induced@.len() ==> (#[trigger] rep_to_induced@[k] matches Some(o) ==> o < orbits@.len()),
                forall|i: int| 0 <= i < conj.word.terms@.len() ==> (#[trigger] conj.word.terms@[i]).gen_index < self.pres.n(),
                xr@.len() == n_new,
                tr@.len() == n_new,
                forall|i: int| 0 <= i < n_new ==> x_entry_ok(#[trigger] xr@[i], e),
                owners_ok(new_reps@, clusters@, orbits@, p as nat),
                clusters_ok(clusters@, self.representations@.len() as nat, n_new as nat, p as nat),
                inherits_x(xr@, clusters@, self.x_dict@[g_j as int]@, clusters@.len() as int, p as nat),
                ext_targets(tr@, new_reps@, clusters@, self.tau_dict@[g_j as int]@, clusters@.len() as int, p as nat),
                ind_targets(tr@, new_reps@, orbits@, self.tau_dict@[g_j as int]@, o as int),
                ext_order(tr@, new_reps@, clusters@, clusters@.len() as int, p as nat, conj_exponent(*self.pres, g_i as nat, g_j as nat) as nat),
                forall|k: int| 0 <= k < rep_to_induced@.len() ==> (#[trigger] rep_to_induced@[k] matches Some(o) ==> orbits@[o as int].1@.contains(k as usize)),
            decreases orbits@.len() - o,
        {
            let d_idx = orbits[o].0;
            let orbit_ids = &orbits[o].1;
            proof {
                assert(orbits@[o as int].1@.len() == p);
                assert(orbit_ids@[0] < self.representations@.len());
            }
            let d = &new_reps[d_idx];
            proof {
                assert(d.wf(self.pres.n()));
            }
            let f0_id = orbit_ids[0];
            let f0_dim = self.representations[f0_id].dim;
            let pi = match self.lookup_tau(g_j, f0_id) {
                Some(v) => v,
                None => {
                    return Err(BaumClausenError::MissingTauEntry { generator: g_j, representation_id: f0_id });
                },
            };
            let to = if pi < rep_to_induced.len() {
                rep_to_induced[pi]
            } else {
                None
            };
            let to = match to {
                Some(v) => v,
                None => {
                    return Err(BaumClausenError::MissingRepresentation { id: pi });
                },
            };
            let t_idx = orbits[to].0;
            let t_orbit = &orbits[to].1;
            let target_d = &new_reps[t_idx];
            proof {
                assert(target_d.wf(self.pres.n()));
                assert(t_orbit@.len() == p);
            }
            let ghost tr_before = tr@;
            proof {
                assert(d.id == d_idx && target_d.id == t_idx);
                assert(orbits@[to as int].1@.contains(pi));
                assert(new_reps@[t_idx as int].is_induced && (new_reps@[t_idx as int].children matches Some(ch) && ch@ == orbits@[to as int].1@));
                assert(new_reps@[d_idx as int].is_induced);
            }
            tr.set(d.id, Some(target_d.id));
            proof {
                assert forall|o2: int| 0 <= o2 < o + 1 implies (tr@[(#[trigger] orbits@[o2]).0 as int] matches Some(u) && (u < new_reps@.len() && new_reps@[u as int].is_induced && (
                    self.tau_dict@[g_j as int]@[orbits@[o2].1@[0] as int] matches Some(v) && (new_reps@[u as int].children matches Some(cu) && cu@.contains(v))))) by {
                    if o2 < o {
                        assert(orbits@[o2].0 < orbits@[o as int].0);
                        assert(tr@[orbits@[o2].0 as int] == tr_before[orbits@[o2].0 as int]);
                    }
                }
                assert forall|c2: int, t: int| 0 <= c2 < clusters@.len() && 0 <= t < p implies (tr@[#[trigger] clusters@[c2].1@[t] as int] matches Some(u) && (u < new_reps@.len()
                    && !new_reps@[u as int].is_induced && (self.tau_dict@[g_j as int]@[clusters@[c2].0 as int] matches Some(v) && (new_reps@[u as int].children matches Some(
                    cu,
                ) && cu@ == seq![v])))) by {
                    assert(!new_reps@[clusters@[c2].1@[t] as int].is_induced);
                    assert(clusters@[c2].1@[t] < n_new);
                    assert(tr@[clusters@[c2].1@[t] as int] == tr_before[clusters@[c2].1@[t] as int]);
                }
                assert forall|c2: int, t: int| 0 <= c2 < clusters@.len() && 0 <= t < p implies (tr@[#[trigger] clusters@[c2].1@[t] as int] matches Some(u) && (tr@[clusters@[c2].1@[0] as int] matches Some(
                    u0,
                ) && cluster_pos(new_reps@[u as int]) == (cluster_pos(new_reps@[u0 as int]) + t * conj_exponent(*self.pres, g_i as nat, g_j as nat)) % (p as int))) by {
                    assert(!new_reps@[clusters@[c2].1@[t] as int].is_induced);
                    assert(!new_reps@[clusters@[c2].1@[0] as int].is_induced);
                    assert(clusters@[c2].1@[t] < n_new);
                    assert(clusters@[c2].1@[0] < n_new);
                    assert(tr@[clusters@[c2].1@[t] as int] == tr_before[clusters@[c2].1@[t] as int]);
                    assert(tr@[clusters@[c2].1@[0] as int] == tr_before[clusters@[c2].1@[0] as int]);
                }
            }
            // sigma[k]: the block of the target orbit that the conjugate of orbit[k] sits in
            let mut sigma: Vec<usize> = Vec::new();
            let mut x_k_list: Vec<MonomialMatrix> = Vec::new();
            let mut k: usize = 0;
            while k < pu
                invariant
                    k <= pu,
                    pu == p,
                    orbit_ids@.len() == p,
                    t_orbit@.len() == p,
                    self.wf(),
                    e == self.exponent,
                    sigma@.len() == k,
                    x_k_list@.len() == k,
                    forall|t: int| 0 <= t < k ==> #[trigger] sigma@[t] < p,
                    forall|t: int| 0 <= t < k ==> (#[trigger] x_k_list@[t]).valid() && x_k_list@[t].e == e,
                decreases pu - k,
            {
                let fk_id = orbit_ids[k];
                let pi_fk = match self.lookup_tau(g_j, fk_id) {
                    Some(v) => v,
                    None => {
                        return Err(BaumClausenError::MissingTauEntry { generator: g_j, representation_id: fk_id });
                    },
                };
                let mut pos: usize = 0;
                while pos < pu && t_orbit[pos] != pi_fk
                    invariant
                        pos <= pu,
                        t_orbit@.len() == pu,
                    decreases pu - pos,
                {
                    pos = pos + 1;
                }
                if pos >= pu {
                    return Err(BaumClausenError::MissingRepresentation { id: pi_fk });
                }
                sigma.push(pos);
                let x_k = match self.lookup_x(g_j, fk_id) {
                    Some(m) => m,
                    None => {
                        return Err(BaumClausenError::MissingXEntry { generator: g_j, representation_id: fk_id });
                    },
                };
                x_k_list.push(x_k);
                k = k + 1;
            }
            let mut inv_sigma = zeros_usize(pu);
            let mut k: usize = 0;
            while k < pu
                invariant
                    k <= pu,
                    sigma@.len() == pu,
                    inv_sigma@.len() == pu,
                    forall|t: int| 0 <= t < pu ==> #[trigger] sigma@[t] < pu,
                    forall|t: int| 0 <= t < pu ==> #[trigger] inv_sigma@[t] < pu,
                decreases pu - k,
            {
                inv_sigma.set(sigma[k], k);
                k = k + 1;
            }
            let d_w = d.evaluate_element(&conj);
            let target_d_gi = &target_d.matrices[g_i];
            proof {
                assert(target_d_gi.valid() && target_d_gi.e == e);
            }
            // the phases c_k, propagated along the cycle of sigma from c_0 = 0
            let mut c_phases = zeros_u32(pu);
            let mut cur_k: usize = 0;
            let mut step: usize = 0;
            while step + 1 < pu
                invariant
                    step < pu || pu == 0,
                    pu == p,
                    p >= 1,
                    cur_k < pu,
                    e == self.exponent,
                    0 < e <= 0x8000_0000,
                    sigma@.len() == pu,
                    inv_sigma@.len() == pu,
                    x_k_list@.len() == pu,
                    c_phases@.len() == pu,
                    forall|t: int| 0 <= t < pu ==> #[trigger] sigma@[t] < pu,
                    forall|t: int| 0 <= t < pu ==> #[trigger] inv_sigma@[t] < pu,
                    forall|t: int| 0 <= t < pu ==> (#[trigger] x_k_list@[t]).valid() && x_k_list@[t].e == e,
                    forall|t: int| 0 <= t < pu ==> #[trigger] c_phases@[t] < e,
                    d_w.valid(),
                    d_w.e == e,
                    target_d_gi.valid(),
                    target_d_gi.e == e,
                decreases pu - step,
            {
                let x_cur = &x_k_list[cur_k];
                if f0_dim == 0 || x_cur.perm.len() == 0 {
                    return Err(BaumClausenError::InvalidStageTransition);
                }
                let v = match sigma[cur_k].checked_mul(f0_dim) {
                    Some(v) => v,
                    None => {
                        return Err(BaumClausenError::InvalidStageTransition);
                    },
                };
                let u = match cur_k.checked_mul(f0_dim) {
                    Some(a) => match a.checked_add(x_cur.perm[0]) {
                        Some(b) => b,
                        None => {
                            return Err(BaumClausenError::InvalidStageTransition);
                        },
                    },
                    None => {
                        return Err(BaumClausenError::InvalidStageTransition);
                    },
                };
                if v >= target_d_gi.perm.len() || u >= d_w.vals.len() {
                    return Err(BaumClausenError::InvalidStageTransition);
                }
                let v_prime = target_d_gi.perm[v];
                let target_block = v_prime / f0_dim;
                if target_block >= pu {
                    return Err(BaumClausenError::InvalidStageTransition);
                }
                let k_prev = inv_sigma[target_block];
                let r_prime = v_prime % f0_dim;
                let x_prev = &x_k_list[k_prev];
                if r_prime >= x_prev.vals.len() {
                    return Err(BaumClausenError::InvalidStageTransition);
                }
                let lhs_term = (x_cur.vals[0] + d_w.vals[u]) % e;
                let rhs_term = (target_d_gi.vals[v] + x_prev.vals[r_prime]) % e;
                let diff = (lhs_term + e - rhs_term) % e;
                let next_phase = (c_phases[cur_k] + diff) % e;
                c_phases.set(k_prev, next_phase);
                cur_k = k_prev;
                step = step + 1;
            }
            // the intertwiner Y of the induced representation
            let mut full_perm = zeros_usize(d.dim);
            let mut full_vals = zeros_u32(d.dim);
            let mut k: usize = 0;
            while k < pu
                invariant
                    k <= pu,
                    pu == p,
                    0 < e <= 0x8000_0000,
                    sigma@.len() == pu,
                    x_k_list@.len() == pu,
                    c_phases@.len() == pu,
                    forall|t: int| 0 <= t < pu ==> (#[trigger] x_k_list@[t]).valid() && x_k_list@[t].e == e,
                    forall|t: int| 0 <= t < pu ==> #[trigger] c_phases@[t] < e,
                    full_perm@.len() == d.dim,
                    full_vals@.len() == d.dim,
                decreases pu - k,
            {
                let sig_k = sigma[k];
                let x_k = &x_k_list[k];
                let c_scalar = c_phases[k];
                if x_k.perm.len() < f0_dim {
                    return Err(BaumClausenError::InvalidStageTransition);
                }
                let mut r: usize = 0;
                while r < f0_dim
                    invariant
                        r <= f0_dim,
                        f0_dim <= x_k.perm@.len(),
                        x_k.valid(),
                        x_k.e == e,
                        0 < e <= 0x8000_0000,
                        c_scalar < e,
                        full_perm@.len() == d.dim,
                        full_vals@.len() == d.dim,
                    decreases f0_dim - r,
                {
                    let row = match sig_k.checked_mul(f0_dim) {
                        Some(a) => match a.checked_add(r) {
                            Some(b) => b,
                            None => {
                                return Err(BaumClausenError::InvalidStageTransition);
                            },
                        },
                        None => {
                            return Err(BaumClausenError::InvalidStageTransition);
                        },
                    };
                    let col = match k.checked_mul(f0_dim) {
                        Some(a) => match a.checked_add(x_k.perm[r]) {
                            Some(b) => b,
                            None => {
                                return Err(BaumClausenError::InvalidStageTransition);
                            },
                        },
                        None => {
                            return Err(BaumClausenError::InvalidStageTransition);
                        },
                    };
                    if row >= full_perm.len() {
                        return Err(BaumClausenError::InvalidStageTransition);
                    }
                    full_perm.set(row, col);
                    full_vals.set(row, (x_k.vals[r] + c_scalar) % e);
                    r = r + 1;
                }
                k = k + 1;
            }
            let y_mat = MonomialMatrix::new(full_perm, full_vals, e);
            if !check_matrix(&y_mat, d.dim, e) {
                return Err(BaumClausenError::InvalidStageTransition);
            }
            let ghost xr_before = xr@;
            proof {
                assert(new_reps@[d_idx as int].is_induced);
                assert(d.id == d_idx);
            }
            xr.set(d.id, Some(y_mat));
            proof {
                assert forall|c2: int, t: int| 0 <= c2 < clusters@.len() && 0 <= t < p implies (xr@[#[trigger] clusters@[c2].1@[t] as int] matches Some(x)
                    && self.x_dict@[g_j as int]@[clusters@[c2].0 as int] matches Some(y) && x.view() == y.view()) by {
                    assert(!new_reps@[clusters@[c2].1@[t] as int].is_induced);
                    assert(clusters@[c2].1@[t] < n_new);
                    assert(xr@[clusters@[c2].1@[t] as int] == xr_before[clusters@[c2].1@[t] as int]);
                }
            }
            o = o + 1;
        }
        Ok((xr, tr))
    }
}

impl<'a> BaumClausenStage<'a> {
    /// Advances along the generator `g_i` of relative order `p`: each representation invariant
    /// under `g_i` is extended in `p` ways, each orbit of `p` conjugate representations induces
    /// one; then the conjugates and intertwiners of the remaining higher generators are
    /// computed for the new representations. Fails with the error of a missing table entry, or
    /// with `InvalidStageTransition` where the tables do not fit together (dimensions that
    /// differ, an intertwiner that is not invertible, sizes beyond `usize`).
    #[verifier::spinoff_prover]
    #[verifier::rlimit(60)]
    pub(crate) fn advance_step(&self, g_i: usize, p: u32) -> (res: Result<Self, BaumClausenError>)
        requires
            self.wf(),
            g_i < self.pres.n(),
            self.higher_generators@.contains(g_i),
            p >= 1,
        ensures
            !(res matches Err(BaumClausenError::NotSupersolvable)),
            res matches Err(err) ==> self.errors_named(err),
            res matches Ok(s) ==> s.wf() && s.level == self.level + 1 && s.exponent == self.exponent && s.pres
                == self.pres && s.higher_generators@ == without(self.higher_generators@, g_i),
            res matches Ok(s) ==> (self.representations@.len() >= 1 ==> s.representations@.len() >= 1),
            res matches Ok(s) ==> forall|k: int|
                0 <= k < s.representations@.len() ==> comes_from(self.representations@, #[trigger] s.representations@[k], p as nat),
            res matches Ok(s) ==> forall|k: int|
                0 <= k < s.representations@.len() ==> built_from(
                    self.representations@,
                    self.x_dict@[g_i as int]@,
                    g_i as int,
                    *self.pres,
                    #[trigger] s.representations@[k],
                ),
            res matches Ok(s) ==> forall|i: int|
                0 <= i < s.higher_generators@.len() ==> inherits_from_base(
                    s.representations@,
                    s.x_dict@[#[trigger] s.higher_generators@[i] as int]@,
                    self.x_dict@[s.higher_generators@[i] as int]@,
                ),
            res matches Ok(s) ==> forall|i: int|
                0 <= i < s.higher_generators@.len() ==> conj_order(
                    s.representations@,
                    s.tau_dict@[#[trigger] s.higher_generators@[i] as int]@,
                    conj_exponent(*self.pres, g_i as nat, s.higher_generators@[i] as nat) as nat,
                ),
            res matches Ok(s) ==> forall|i: int|
                0 <= i < s.higher_generators@.len() ==> conjugates_follow(
                    s.representations@,
                    s.tau_dict@[#[trigger] s.higher_generators@[i] as int]@,
                    self.tau_dict@[s.higher_generators@[i] as int]@,
                ),
    {
        let e = self.exponent;
        let n_gens = self.pres.num_gens();
        let count = self.representations.len();
        let pu = p as usize;
        let higher_gens = without_vec(&self.higher_generators, g_i);
        proof {
            lemma_without(self.higher_generators@, g_i);
        }
        let power_word = self.pres.power(g_i);
        proof {
            assert forall|i: int| 0 <= i < power_word.terms@.len() implies (#[trigger] power_word.terms@[i]).gen_index
                < self.pres.n() by {
                assert(self.pres.pw(g_i as int)[i] == power_word.terms@[i]);
            }
        }
        let mut visited: Vec<bool> = Vec::new();
        let mut k: usize = 0;
        while k < count
            invariant
                k <= count,
                visited@.len() == k,
                forall|t: int| 0 <= t < k ==> !(#[trigger] visited@[t]),
            decreases count - k,
        {
            visited.push(false);
            k = k + 1;
        }
        let mut new_reps: Vec<Representation> = Vec::new();
        let mut clusters: Vec<(usize, Vec<usize>)> = Vec::new();
        let mut orbits: Vec<(usize, Vec<usize>)> = Vec::new();
        // phase 1: extend or induce
        let mut fi: usize = 0;
        while fi < count
            invariant
                fi <= count,
                count == self.representations@.len(),
                self.wf(),
                e == self.exponent,
                n_gens == self.pres.n(),
                g_i < n_gens,
                p >= 1,
                pu == p,
                visited@.len() == count,
                fi == 0 ==> forall|t: int| 0 <= t < count ==> !(#[trigger] visited@[t]),
                fi > 0 ==> new_reps@.len() >= 1,
                forall|k: int| 0 <= k < new_reps@.len() ==> comes_from(self.representations@, #[trigger] new_reps@[k], p as nat),
                forall|k: int|
                    0 <= k < new_reps@.len() ==> built_from(
                        self.representations@,
                        self.x_dict@[g_i as int]@,
                        g_i as int,
                        *self.pres,
                        #[trigger] new_reps@[k],
                    ),
                forall|i: int| 0 <= i < power_word.terms@.len() ==> (#[trigger] power_word.terms@[i]).gen_index < self.pres.n(),
                power_word.terms@ == self.pres.pw(g_i as int),
                reps_ok(new_reps@, self.pres.n(), e),
                clusters_ok(clusters@, count as nat, new_reps@.len() as nat, p as nat),
                orbits_ok(orbits@, count as nat, new_reps@.len() as nat, p as nat),
                owners_ok(new_reps@, clusters@, orbits@, p as nat),
                forall|c: int| 0 <= c < clusters@.len() ==> #[trigger] clusters@[c].0 < fi,
                extensions_listed(new_reps@, clusters@, p as nat),
                induced_listed(new_reps@, orbits@),
            decreases count - fi,
        {
            if !visited[fi] {
                let f = &self.representations[fi];
                proof {
                    assert(f.wf(self.pres.n()) && f.id == fi);
                }
                let tau_gi = match self.lookup_tau(g_i, fi) {
                    Some(t) => t,
                    None => {
                        return Err(BaumClausenError::MissingTauEntry { generator: g_i, representation_id: f.id });
                    },
                };
                if tau_gi == fi {
                    visited.set(fi, true);
                    let next_id = new_reps.len();
                    let mut extensions = match self.extend_representation(f, g_i, p, power_word, next_id) {
                        Ok(v) => v,
                        Err(err) => {
                            return Err(err);
                        },
                    };
                    let mut cluster_ids: Vec<usize> = Vec::new();
                    let mut t: usize = 0;
                    while t < pu
                        invariant
                            t <= pu,
                            extensions@.len() == pu,
                            forall|s: int| 0 <= s < pu ==> (#[trigger] extensions@[s]).id == next_id + s,
                            cluster_ids@.len() == t,
                            forall|s: int| 0 <= s < t ==> #[trigger] cluster_ids@[s] == next_id + s,
                        decreases pu - t,
                    {
                        cluster_ids.push(extensions[t].id);
                        t = t + 1;
                    }
                    let ghost old_reps = new_reps@;
                    let ghost old_clusters = clusters@;
                    let ghost exts = extensions@;
                    let ghost cids = cluster_ids@;
                    new_reps.append(&mut extensions);
                    clusters.push((fi, cluster_ids));
                    proof {
                        assert forall|k: int| 0 <= k < new_reps@.len() implies (#[trigger] new_reps@[k]).wf(self.pres.n())
                            && new_reps@[k].exponent == e && new_reps@[k].id == k && comes_from(self.representations@, new_reps@[k], p as nat)
                            && built_from(self.representations@, self.x_dict@[g_i as int]@, g_i as int, *self.pres, new_reps@[k]) by {
                            if k >= old_reps.len() {
                                assert(new_reps@[k] == exts[k - old_reps.len()]);
                                let ch = new_reps@[k].children->0;
                                assert(ch@ == seq![fi]);
                                assert(ch@[0] == fi);
                                assert(self.representations@[fi as int] == *f);
                                assert(new_reps@[k].matrices@[g_i as int].perm@ == (self.x_dict@[g_i as int]@[fi as int]->0).perm@);
                                let t = k - old_reps.len();
                                let x = self.x_dict@[g_i as int]@[fi as int]->0;
                                let ee = e as nat;
                                let sh = ext_shift(*f, x.view(), power_word.terms@, p as nat);
                                let c0 = choose|c0: nat|
                                    #[trigger] least_root(c0, p as nat, ee, sh) && forall|k2: int|
                                        0 <= k2 < p ==> (#[trigger] exts[k2]).matrices@[g_i as int].vals@ == shifted_vals(
                                            x.view(),
                                            c0 + (k2 as nat) * (ee / spec_gcd(p as nat, ee)),
                                            ee,
                                        );
                                assert(exts[t].matrices@[g_i as int].vals@ == shifted_vals(x.view(), c0 + (t as nat) * (ee / spec_gcd(p as nat, ee)), ee));
                                let cl = new_reps@[k].cluster->0;
                                assert(cl@ == Seq::new(p as nat, |t: int| (next_id + t) as usize));
                                assert(cl@.len() == p);
                                assert(cl@[0] == next_id);
                                assert(new_reps@[k].id - cl@[0] == t);
                                assert(power_word.terms@ == self.pres.pw(g_i as int));
                                assert(least_root(c0, cl@.len(), new_reps@[k].exponent as nat, ext_shift(self.representations@[fi as int], x.view(), self.pres.pw(g_i as int), cl@.len())));
                            } else {
                                assert(new_reps@[k] == old_reps[k]);
                            }
                        }
                        assert forall|c: int| 0 <= c < clusters@.len() implies (#[trigger] clusters@[c]).0 < count
                            && clusters@[c].1@.len() == p && forall|t: int| 0 <= t < p ==> #[trigger] clusters@[c].1@[t]
                            < new_reps@.len() by {
                            if c < old_clusters.len() {
                                assert(clusters@[c] == old_clusters[c]);
                            }
                        }
                        assert forall|c: int, t: int| 0 <= c < clusters@.len() && 0 <= t < p implies !new_reps@[#[trigger] clusters@[c].1@[t] as int].is_induced && (
                            new_reps@[clusters@[c].1@[t] as int].children matches Some(ch) && ch@ == seq![clusters@[c].0]) by {
                            if c < old_clusters.len() {
                                assert(clusters@[c] == old_clusters[c]);
                                assert(old_clusters[c].1@[t] < old_reps.len());
                                assert(new_reps@[clusters@[c].1@[t] as int] == old_reps[clusters@[c].1@[t] as int]);
                            } else {
                                assert(clusters@[c].1@[t] == next_id + t);
                                assert(new_reps@[next_id + t] == exts[t]);
                            }
                        }
                        assert forall|c: int, t1: int, t2: int| 0 <= c < clusters@.len() && 0 <= t1 < t2 < p implies #[trigger] clusters@[c].1@[t1]
                            != #[trigger] clusters@[c].1@[t2] by {
                            if c < old_clusters.len() {
                                assert(clusters@[c] == old_clusters[c]);
                            }
                        }
                        assert forall|c1: int, c2: int| 0 <= c1 < c2 < clusters@.len() implies #[trigger] clusters@[c1].0 < #[trigger] clusters@[c2].0 by {
                            assert(clusters@[c1] == old_clusters[c1]);
                            if c2 < old_clusters.len() {
                                assert(clusters@[c2] == old_clusters[c2]);
                            }
                        }
                        assert forall|o: int| 0 <= o < orbits@.len() implies new_reps@[(#[trigger] orbits@[o]).0 as int].is_induced by {
                            assert(new_reps@[orbits@[o].0 as int] == old_reps[orbits@[o].0 as int]);
                        }
                        assert forall|c: int, t: int|
                            0 <= c < clusters@.len() && 0 <= t < p implies #[trigger] clusters@[c].1@[t] == clusters@[c].1@[0] + t && (new_reps@[
                            clusters@[c].1@[t] as int].cluster matches Some(cl) && cl@ == clusters@[c].1@) by {
                            if c < old_clusters.len() {
                                assert(clusters@[c] == old_clusters[c]);
                                assert(old_clusters[c].1@[t] < old_reps.len());
                                assert(new_reps@[clusters@[c].1@[t] as int] == old_reps[clusters@[c].1@[t] as int]);
                            } else {
                                assert(clusters@[c].1@ == cids);
                                assert(cids[t] == next_id + t);
                                assert(cids[0] == next_id);
                                assert(new_reps@[next_id + t] == exts[t]);
                                assert(exts[t].cluster->0@ =~= cids);
                            }
                        }
                        assert forall|c: int| 0 <= c < clusters@.len() implies #[trigger] clusters@[c].0 < fi + 1 by {
                            if c < old_clusters.len() {
                                assert(clusters@[c] == old_clusters[c]);
                            }
                        }
                        assert forall|k: int| 0 <= k < new_reps@.len() && !(#[trigger] new_reps@[k]).is_induced implies exists|c: int, t: int|
                            0 <= c < clusters@.len() && 0 <= t < p && #[trigger] clusters@[c].1@[t] == k by {
                            if k < old_reps.len() {
                                assert(new_reps@[k] == old_reps[k]);
                                let (c, t) = choose|c: int, t: int| 0 <= c < old_clusters.len() && 0 <= t < p && #[trigger] old_clusters[c].1@[t] == k;
                                assert(clusters@[c] == old_clusters[c]);
                                assert(clusters@[c].1@[t] == k);
                            } else {
                                let c = old_clusters.len() as int;
                                let t = k - next_id;
                                assert(clusters@[c].1@[t] == k);
                            }
                        }
                        assert forall|k: int| 0 <= k < new_reps@.len() && (#[trigger] new_reps@[k]).is_induced implies exists|o: int|
                            0 <= o < orbits@.len() && #[trigger] orbits@[o].0 == k by {
                            if k < old_reps.len() {
                                assert(new_reps@[k] == old_reps[k]);
                            } else {
                                assert(new_reps@[k] == exts[k - old_reps.len()]);
                            }
                        }
                    }
                } else {
                    let mut orbit: Vec<usize> = Vec::new();
                    orbit.push(fi);
                    visited.set(fi, true);
                    let mut cursor = fi;
                    let mut t: usize = 1;
                    while t < pu
                        invariant
                            1 <= t <= pu,
                            orbit@.len() == t,
                            visited@.len() == count,
                            cursor < count,
                            forall|s: int| 0 <= s < t ==> #[trigger] orbit@[s] < count,
                        decreases pu - t,
                    {
                        let next_orbit_id = match self.lookup_tau(g_i, cursor) {
                            Some(v) => v,
                            None => {
                                return Err(BaumClausenError::MissingTauEntry { generator: g_i, representation_id: cursor });
                            },
                        };
                        if next_orbit_id >= count {
                            return Err(BaumClausenError::MissingRepresentation { id: next_orbit_id });
                        }
                        cursor = next_orbit_id;
                        orbit.push(cursor);
                        visited.set(cursor, true);
                        t = t + 1;
                    }
                    let d = match self.induce_representation(&orbit, g_i, p, power_word, new_reps.len()) {
                        Ok(d) => d,
                        Err(err) => {
                            return Err(err);
                        },
                    };
                    let ghost old_reps = new_reps@;
                    let ghost old_orbits = orbits@;
                    orbits.push((new_reps.len(), orbit));
                    new_reps.push(d);
                    proof {
                        assert forall|k: int| 0 <= k < new_reps@.len() implies (#[trigger] new_reps@[k]).wf(self.pres.n())
                            && new_reps@[k].exponent == e && new_reps@[k].id == k && comes_from(self.representations@, new_reps@[k], p as nat)
                            && built_from(self.representations@, self.x_dict@[g_i as int]@, g_i as int, *self.pres, new_reps@[k]) by {
                            if k < old_reps.len() {
                                assert(new_reps@[k] == old_reps[k]);
                            }
                        }
                        assert forall|o: int| 0 <= o < orbits@.len() implies (#[trigger] orbits@[o]).0 < new_reps@.len()
                            && orbits@[o].1@.len() == p && forall|t: int| 0 <= t < p ==> #[trigger] orbits@[o].1@[t]
                            < count by {
                            if o < old_orbits.len() {
                                assert(orbits@[o] == old_orbits[o]);
                            }
                        }
                        assert forall|c: int| 0 <= c < clusters@.len() implies (#[trigger] clusters@[c]).0 < count
                            && clusters@[c].1@.len() == p && forall|t: int| 0 <= t < p ==> #[trigger] clusters@[c].1@[t]
                            < new_reps@.len() by {}
                        assert forall|c: int, t: int| 0 <= c < clusters@.len() && 0 <= t < p implies !new_reps@[#[trigger] clusters@[c].1@[t] as int].is_induced && (
                            new_reps@[clusters@[c].1@[t] as int].children matches Some(ch) && ch@ == seq![clusters@[c].0]) by {
                            assert(clusters@[c].1@[t] < old_reps.len());
                            assert(new_reps@[clusters@[c].1@[t] as int] == old_reps[clusters@[c].1@[t] as int]);
                        }
                        assert forall|c: int, t: int|
                            0 <= c < clusters@.len() && 0 <= t < p implies #[trigger] clusters@[c].1@[t] == clusters@[c].1@[0] + t && (new_reps@[
                            clusters@[c].1@[t] as int].cluster matches Some(cl) && cl@ == clusters@[c].1@) by {
                            assert(clusters@[c].1@[t] < old_reps.len());
                            assert(new_reps@[clusters@[c].1@[t] as int] == old_reps[clusters@[c].1@[t] as int]);
                        }
                        assert forall|o: int| 0 <= o < orbits@.len() implies new_reps@[(#[trigger] orbits@[o]).0 as int].is_induced by {
                            if o < old_orbits.len() {
                                assert(orbits@[o] == old_orbits[o]);
                                assert(new_reps@[orbits@[o].0 as int] == old_reps[orbits@[o].0 as int]);
                            }
                        }
                        assert forall|k: int| 0 <= k < new_reps@.len() && !(#[trigger] new_reps@[k]).is_induced implies exists|c: int, t: int|
                            0 <= c < clusters@.len() && 0 <= t < p && #[trigger] clusters@[c].1@[t] == k by {
                            assert(k < old_reps.len());
                            assert(new_reps@[k] == old_reps[k]);
                        }
                        assert forall|k: int| 0 <= k < new_reps@.len() && (#[trigger] new_reps@[k]).is_induced implies exists|o: int|
                            0 <= o < orbits@.len() && #[trigger] orbits@[o].0 == k by {
                            if k < old_reps.len() {
                                assert(new_reps@[k] == old_reps[k]);
                                let o = choose|o: int| 0 <= o < old_orbits.len() && #[trigger] old_orbits[o].0 == k;
                                assert(orbits@[o] == old_orbits[o]);
                            } else {
                                assert(orbits@[old_orbits.len() as int].0 == k);
                            }
                        }
                    }
                }
            }
            fi = fi + 1;
        }
        // phase 2: conjugates and intertwiners of the higher generators
        let mut base_to_cluster: Vec<Option<usize>> = Vec::new();
        let mut rep_to_induced: Vec<Option<usize>> = Vec::new();
        let mut k: usize = 0;
        while k < count
            invariant
                k <= count,
                base_to_cluster@.len() == k,
                rep_to_induced@.len() == k,
                forall|i: int| 0 <= i < k ==> #[trigger] base_to_cluster@[i] is None,
                forall|i: int| 0 <= i < k ==> #[trigger] rep_to_induced@[i] is None,
            decreases count - k,
        {
            base_to_cluster.push(None);
            rep_to_induced.push(None);
            k = k + 1;
        }
        let mut c: usize = 0;
        while c < clusters.len()
            invariant
                c <= clusters@.len(),
                clusters_ok(clusters@, count as nat, new_reps@.len() as nat, p as nat),
                base_to_cluster@.len() == count,
                forall|i: int| 0 <= i < count ==> (#[trigger] base_to_cluster@[i] matches Some(b) ==> b < clusters@.len()),
                forall|i: int| 0 <= i < count ==> (#[trigger] base_to_cluster@[i] matches Some(b) ==> clusters@[b as int].0 == i),
            decreases clusters@.len() - c,
        {
            base_to_cluster.set(clusters[c].0, Some(c));
            c = c + 1;
        }
        let mut o: usize = 0;
        while o < orbits.len()
            invariant
                o <= orbits@.len(),
                orbits_ok(orbits@, count as nat, new_reps@.len() as nat, p as nat),
                rep_to_induced@.len() == count,
                forall|i: int| 0 <= i < count ==> (#[trigger] rep_to_induced@[i] matches Some(b) ==> b < orbits@.len()),
                forall|i: int| 0 <= i < count ==> (#[trigger] rep_to_induced@[i] matches Some(b) ==> orbits@[b as int].1@.contains(i as usize)),
            decreases orbits@.len() - o,
        {
            let ids = &orbits[o].1;
            let mut t: usize = 0;
            while t < ids.len()
                invariant
                    t <= ids@.len(),
                    o < orbits@.len(),
                    ids == orbits@[o as int].1,
                    orbits_ok(orbits@, count as nat, new_reps@.len() as nat, p as nat),
                    rep_to_induced@.len() == count,
                    forall|i: int| 0 <= i < count ==> (#[trigger] rep_to_induced@[i] matches Some(b) ==> b < orbits@.len()),
                    forall|i: int| 0 <= i < count ==> (#[trigger] rep_to_induced@[i] matches Some(b) ==> orbits@[b as int].1@.contains(i as usize)),
                decreases ids@.len() - t,
            {
                let ghost before = rep_to_induced@;
                rep_to_induced.set(ids[t], Some(o));
                proof {
                    assert forall|i: int| 0 <= i < count implies (#[trigger] rep_to_induced@[i] matches Some(b) ==> orbits@[b as int].1@.contains(i as usize)) by {
                        if i == ids@[t as int] {
                            assert(orbits@[o as int].1@[t as int] == i);
                        } else {
                            assert(rep_to_induced@[i] == before[i]);
                        }
                    }
                }
                t = t + 1;
            }
            o = o + 1;
        }
        let mut x_dict: Vec<Vec<Option<MonomialMatrix>>> = Vec::new();
        let mut tau_dict: Vec<Vec<Option<usize>>> = Vec::new();
        let mut g: usize = 0;
        while g < n_gens
            invariant
                g <= n_gens,
                x_dict@.len() == g,
                tau_dict@.len() == g,
                forall|h: int| 0 <= h < g ==> (#[trigger] x_dict@[h])@.len() == 0,
            decreases n_gens - g,
        {
            x_dict.push(Vec::new());
            tau_dict.push(Vec::new());
            g = g + 1;
        }
        let mut j: usize = 0;
        while j < higher_gens.len()
            invariant
                j <= higher_gens@.len(),
                higher_gens@ == without(self.higher_generators@, g_i),
                forall|i: int| 0 <= i < higher_gens@.len() ==> self.higher_generators@.contains(#[trigger] higher_gens@[i]),
                self.wf(),
                e == self.exponent,
                n_gens == self.pres.n(),
                count == self.representations@.len(),
                g_i < n_gens,
                p >= 1,
                reps_ok(new_reps@, self.pres.n(), e),
                clusters_ok(clusters@, count as nat, new_reps@.len() as nat, p as nat),
                orbits_ok(orbits@, count as nat, new_reps@.len() as nat, p as nat),
                base_to_cluster@.len() == count,
                forall|i: int| 0 <= i < count ==> (#[trigger] base_to_cluster@[i] matches Some(b) ==> b < clusters@.len()),
                rep_to_induced@.len() == count,
                forall|i: int| 0 <= i < count ==> (#[trigger] rep_to_induced@[i] matches Some(b) ==> b < orbits@.len()),
                x_dict@.len() == n_gens,
                tau_dict@.len() == n_gens,
                forall|h: int, k: int|
                    0 <= h < n_gens && 0 <= k < x_dict@[h]@.len() ==> x_entry_ok(#[trigger] x_dict@[h]@[k], e),
                owners_ok(new_reps@, clusters@, orbits@, p as nat),
                extensions_listed(new_reps@, clusters@, p as nat),
                induced_listed(new_reps@, orbits@),
                forall|i: int| 0 <= i < count ==> (#[trigger] base_to_cluster@[i] matches Some(b) ==> clusters@[b as int].0 == i),
                forall|i: int| 0 <= i < count ==> (#[trigger] rep_to_induced@[i] matches Some(b) ==> orbits@[b as int].1@.contains(i as usize)),
                forall|jj: int| 0 <= jj < j ==> row_ok(
                    x_dict@[#[trigger] higher_gens@[jj] as int]@,
                    tau_dict@[higher_gens@[jj] as int]@,
                    new_reps@,
                    clusters@,
                    orbits@,
                    self.x_dict@[higher_gens@[jj] as int]@,
                    self.tau_dict@[higher_gens@[jj] as int]@,
                    p as nat,
                    conj_exponent(*self.pres, g_i as nat, higher_gens@[jj] as nat) as nat,
                ),
            decreases higher_gens@.len() - j,
        {
            let g_j = higher_gens[j];
            proof {
                assert(self.higher_generators@.contains(g_j));
                let w = choose|w: int| 0 <= w < self.higher_generators@.len() && self.higher_generators@[w] == g_j;
                assert(self.higher_generators@[w] < n_gens);
            }
            let (xr, tr) = match self.conjugation_row(
                g_j,
                g_i,
                p,
                &new_reps,
                &clusters,
                &orbits,
                &base_to_cluster,
                &rep_to_induced,
            ) {
                Ok(rows) => rows,
                Err(err) => {
                    return Err(err);
                },
            };
            let ghost old_x = x_dict@;
            let ghost old_tau = tau_dict@;
            assert(row_ok(xr@, tr@, new_reps@, clusters@, orbits@, self.x_dict@[g_j as int]@, self.tau_dict@[g_j as int]@, p as nat, conj_exponent(*self.pres, g_i as nat, g_j as nat) as nat)) by {
                reveal(row_ok);
            }
            x_dict.set(g_j, xr);
            tau_dict.set(g_j, tr);
            proof {
                assert forall|h: int, k: int| 0 <= h < n_gens && 0 <= k < x_dict@[h]@.len() implies x_entry_ok(
                    #[trigger] x_dict@[h]@[k],
                    e,
                ) by {
                    if h != g_j {
                        assert(x_dict@[h] == old_x[h]);
                    }
                }
                assert forall|jj: int| 0 <= jj < j + 1 implies row_ok(
                    x_dict@[#[trigger] higher_gens@[jj] as int]@,
                    tau_dict@[higher_gens@[jj] as int]@,
                    new_reps@,
                    clusters@,
                    orbits@,
                    self.x_dict@[higher_gens@[jj] as int]@,
                    self.tau_dict@[higher_gens@[jj] as int]@,
                    p as nat,
                    conj_exponent(*self.pres, g_i as nat, higher_gens@[jj] as nat) as nat,
                ) by {
                    if higher_gens@[jj] != g_j {
                        assert(x_dict@[higher_gens@[jj] as int] == old_x[higher_gens@[jj] as int]);
                        assert(tau_dict@[higher_gens@[jj] as int] == old_tau[higher_gens@[jj] as int]);
                    }
                }
            }
            j = j + 1;
        }
        let s = BaumClausenStage {
            level: self.level + 1,
            exponent: e,
            representations: new_reps,
            x_dict,
            tau_dict,
            higher_generators: higher_gens,
            pres: self.pres,
        };
        proof {
            assert forall|i: int| 0 <= i < s.higher_generators@.len() implies #[trigger] s.higher_generators@[i]
                < self.pres.n() by {
                assert(self.higher_generators@.contains(s.higher_generators@[i]));
                let w = choose|w: int| 0 <= w < self.higher_generators@.len() && self.higher_generators@[w] == s.higher_generators@[i];
                assert(self.higher_generators@[w] < self.pres.n());
            }
            assert forall|i: int| 0 <= i < s.higher_generators@.len() implies inherits_from_base(
                s.representations@,
                s.x_dict@[#[trigger] s.higher_generators@[i] as int]@,
                self.x_dict@[s.higher_generators@[i] as int]@,
            ) by {
                let g = s.higher_generators@[i] as int;
                reveal(row_ok);
                assert(row_ok(s.x_dict@[g]@, s.tau_dict@[g]@, new_reps@, clusters@, orbits@, self.x_dict@[g]@, self.tau_dict@[g]@, p as nat, conj_exponent(*self.pres, g_i as nat, g as nat) as nat));
                assert(inherits_x(s.x_dict@[g]@, clusters@, self.x_dict@[g]@, clusters@.len() as int, p as nat));
                assert forall|k: int| 0 <= k < s.representations@.len() && !(#[trigger] s.representations@[k]).is_induced implies (
                    s.representations@[k].children matches Some(ch) && (ch@.len() == 1 && (s.x_dict@[g]@[k] matches Some(x)
                        && self.x_dict@[g]@[ch@[0] as int] matches Some(y) && x.view() == y.view()))) by {
                    let (c, t) = choose|c: int, t: int| 0 <= c < clusters@.len() && 0 <= t < p && #[trigger] clusters@[c].1@[t] == k;
                    assert(new_reps@[clusters@[c].1@[t] as int].children matches Some(ch) && ch@ == seq![clusters@[c].0]);
                    assert(s.x_dict@[g]@[clusters@[c].1@[t] as int] matches Some(x) && self.x_dict@[g]@[clusters@[c].0 as int] matches Some(y) && x.view() == y.view());
                }
            }
            assert forall|i: int| 0 <= i < s.higher_generators@.len() implies conjugates_follow(
                s.representations@,
                s.tau_dict@[#[trigger] s.higher_generators@[i] as int]@,
                self.tau_dict@[s.higher_generators@[i] as int]@,
            ) by {
                let g = s.higher_generators@[i] as int;
                reveal(row_ok);
                assert(row_ok(s.x_dict@[g]@, s.tau_dict@[g]@, new_reps@, clusters@, orbits@, self.x_dict@[g]@, self.tau_dict@[g]@, p as nat, conj_exponent(*self.pres, g_i as nat, g as nat) as nat));
                assert(ext_targets(s.tau_dict@[g]@, new_reps@, clusters@, self.tau_dict@[g]@, clusters@.len() as int, p as nat));
                assert(ind_targets(s.tau_dict@[g]@, new_reps@, orbits@, self.tau_dict@[g]@, orbits@.len() as int));
                assert forall|k: int| 0 <= k < s.representations@.len() implies ((#[trigger] s.representations@[k]).children matches Some(ch) && (
                    s.tau_dict@[g]@[k] matches Some(u) && (u < s.representations@.len() && s.representations@[u as int].is_induced
                        == s.representations@[k].is_induced && (self.tau_dict@[g]@[ch@[0] as int] matches Some(v) && (
                    s.representations@[u as int].children matches Some(cu) && (if s.representations@[k].is_induced {
                        cu@.contains(v)
                    } else {
                        cu@ == seq![v]
                    })))))) by {
                    if s.representations@[k].is_induced {
                        let o = choose|o: int| 0 <= o < orbits@.len() && #[trigger] orbits@[o].0 == k;
                        assert(new_reps@[orbits@[o].0 as int].children matches Some(ch) && ch@ == orbits@[o].1@);
                        assert(orbits@[o].1@.len() == p);
                    } else {
                        let (c, t) = choose|c: int, t: int| 0 <= c < clusters@.len() && 0 <= t < p && #[trigger] clusters@[c].1@[t] == k;
                        assert(new_reps@[clusters@[c].1@[t] as int].children matches Some(ch) && ch@ == seq![clusters@[c].0]);
                        assert(s.tau_dict@[g]@[clusters@[c].1@[t] as int] matches Some(u) && (u < new_reps@.len() && !new_reps@[u as int].is_induced));
                    }
                }
            }
            assert forall|i: int| 0 <= i < s.higher_generators@.len() implies conj_order(
                s.representations@,
                s.tau_dict@[#[trigger] s.higher_generators@[i] as int]@,
                conj_exponent(*self.pres, g_i as nat, s.higher_generators@[i] as nat) as nat,
            ) by {
                let g = s.higher_generators@[i] as int;
                let a = conj_exponent(*self.pres, g_i as nat, g as nat) as nat;
                reveal(row_ok);
                assert(row_ok(s.x_dict@[g]@, s.tau_dict@[g]@, new_reps@, clusters@, orbits@, self.x_dict@[g]@, self.tau_dict@[g]@, p as nat, a));
                assert(ext_order(s.tau_dict@[g]@, new_reps@, clusters@, clusters@.len() as int, p as nat, a));
                assert forall|k: int| 0 <= k < s.representations@.len() && !(#[trigger] s.representations@[k]).is_induced implies (
                    s.representations@[k].cluster matches Some(cl) && (cl@.len() > 0 && (s.tau_dict@[g]@[k] matches Some(u) && (
                    s.tau_dict@[g]@[cl@[0] as int] matches Some(u0) && cluster_pos(s.representations@[u as int]) == (cluster_pos(
                        s.representations@[u0 as int],
                    ) + cluster_pos(s.representations@[k]) * a) % (cl@.len() as int))))) by {
                    let (c, t) = choose|c: int, t: int| 0 <= c < clusters@.len() && 0 <= t < p && #[trigger] clusters@[c].1@[t] == k;
                    assert(clusters@[c].1@[t] == clusters@[c].1@[0] + t);
                    assert(new_reps@[k].cluster->0@ == clusters@[c].1@);
                    assert(clusters@[c].1@.len() == p);
                    assert(new_reps@[k].id == k);
                    assert(cluster_pos(new_reps@[k]) == t);
                    assert(s.tau_dict@[g]@[clusters@[c].1@[t] as int] matches Some(u) && (s.tau_dict@[g]@[clusters@[c].1@[0] as int] matches Some(
                        u0,
                    ) && cluster_pos(new_reps@[u as int]) == (cluster_pos(new_reps@[u0 as int]) + t * a) % (p as int)));
                }
            }
        }
        Ok(s)
    }
}

/// The leading generator of the first word from position `k` on whose leading generator is in
/// `higher`, if any.
pub open spec fn first_pending(ws: Seq<Seq<Term>>, higher: Seq<usize>, k: int) -> Option<usize>
    decreases ws.len() - k,
{
    if k < 0 || k >= ws.len() {
        None
    } else if ws[k].len() > 0 && higher.contains(ws[k][0].gen_index) {
        Some(ws[k][0].gen_index)
    } else {
        first_pending(ws, higher, k + 1)
    }
}

impl<'a> BaumClausenStage<'a> {
    /// Advances the algorithm to the next subgroup of the chief series: the step is along the
    /// leading generator of the first element of `next_subgroup` that is still to come; without
    /// one the transition is invalid.
    pub fn next(&self, next_subgroup: &GeneratingSequence<'a>) -> (res: Result<Self, BaumClausenError>)
        requires
            self.wf(),
        ensures
            !(res matches Err(BaumClausenError::NotSupersolvable)),
            res matches Err(err) ==> self.errors_named(err),
            res matches Ok(s) ==> s.wf() && s.level == self.level + 1 && s.exponent == self.exponent && s.pres
                == self.pres && s.higher_generators@.len() < self.higher_generators@.len(),
            res matches Ok(s) ==> (self.representations@.len() >= 1 ==> s.representations@.len() >= 1),
            first_pending(next_subgroup.words(), self.higher_generators@, 0) is None ==> res == Err::<
                Self,
                BaumClausenError,
            >(BaumClausenError::InvalidStageTransition),
            first_pending(next_subgroup.words(), self.higher_generators@, 0) matches Some(g) ==> (res matches Ok(s) ==> (
            s.higher_generators@ == without(self.higher_generators@, g) && forall|k: int|
                0 <= k < s.representations@.len() ==> comes_from(
                    self.representations@,
                    #[trigger] s.representations@[k],
                    self.pres.ro()[g as int] as nat,
                ) && built_from(self.representations@, self.x_dict@[g as int]@, g as int, *self.pres, s.representations@[k]))),
            first_pending(next_subgroup.words(), self.higher_generators@, 0) matches Some(g) ==> (res matches Ok(s) ==> forall|i: int|
                0 <= i < s.higher_generators@.len() ==> inherits_from_base(
                    s.representations@,
                    s.x_dict@[#[trigger] s.higher_generators@[i] as int]@,
                    self.x_dict@[s.higher_generators@[i] as int]@,
                ) && conjugates_follow(
                    s.representations@,
                    s.tau_dict@[s.higher_generators@[i] as int]@,
                    self.tau_dict@[s.higher_generators@[i] as int]@,
                ) && conj_order(
                    s.representations@,
                    s.tau_dict@[s.higher_generators@[i] as int]@,
                    conj_exponent(*self.pres, g as nat, s.higher_generators@[i] as nat) as nat,
                )),
    {
        let elems = next_subgroup.elements();
        let ghost ws = next_subgroup.words();
        let ghost hg = self.higher_generators@;
        proof {
            assert forall|i: int| 0 <= i < elems@.len() implies #[trigger] elems@[i].word.terms@ == ws[i] by {
                assert(elems@.map_values(|e: Element<'a>| e.word.terms@)[i] == ws[i]);
            }
        }
        let mut found: Option<usize> = None;
        let mut k: usize = 0;
        while k < elems.len()
            invariant_except_break
                found is None,
            invariant
                k <= elems@.len(),
                elems@.len() == ws.len(),
                hg == self.higher_generators@,
                forall|i: int| 0 <= i < elems@.len() ==> #[trigger] elems@[i].word.terms@ == ws[i],
                found is None ==> first_pending(ws, hg, 0) == first_pending(ws, hg, k as int),
                found matches Some(g) ==> first_pending(ws, hg, 0) == Some(g) && self.higher_generators@.contains(g),
            decreases elems@.len() - k,
        {
            match elems[k].leading_generator() {
                Some(lead) => {
                    let mut t: usize = 0;
                    while t < self.higher_generators.len() && self.higher_generators[t] != lead
                        invariant
                            t <= self.higher_generators@.len(),
                            forall|j: int| 0 <= j < t ==> self.higher_generators@[j] != lead,
                        decreases self.higher_generators@.len() - t,
                    {
                        t = t + 1;
                    }
                    if t < self.higher_generators.len() {
                        proof {
                            assert(hg[t as int] == lead);
                            assert(hg.contains(lead));
                            assert(elems@[k as int].word.terms@.len() > 0);
                            assert(ws[k as int].len() > 0);
                            assert(ws[k as int][0].gen_index == lead);
                            assert(first_pending(ws, hg, k as int) == Some(lead));
                        }
                        found = Some(lead);
                        break;
                    }
                    proof {
                        assert(!hg.contains(lead));
                        assert(ws[k as int][0].gen_index == lead);
                    }
                },
                None => {},
            }
            k = k + 1;
        }
        let g_i = match found {
            Some(g) => g,
            None => {
                return Err(BaumClausenError::InvalidStageTransition);
            },
        };
        proof {
            let w = choose|w: int| 0 <= w < self.higher_generators@.len() && self.higher_generators@[w] == g_i;
            assert(self.higher_generators@[w] < self.pres.n());
            assert(spec_is_prime(self.pres.ro()[g_i as int] as int));
            lemma_without(self.higher_generators@, g_i);
        }
        let p = self.pres.relative_order(g_i);
        self.advance_step(g_i, p)
    }
}

/// The least common multiple as [`lcm`] computes it in `u32` arithmetic.
pub open spec fn lcm_u32(a: nat, b: nat) -> nat {
    if a == 0 || b == 0 {
        0
    } else {
        (((a as int / spec_gcd(a, b) as int) * b as int) % 0x1_0000_0000) as nat
    }
}

/// The order of the element `w` found by multiplying `cur = w^ord` by `w` until the identity,
/// giving up after `10000`.
pub open spec fn order_from(pres: Presentation, w: Seq<Term>, cur: Seq<Term>, ord: nat) -> nat
    decreases 10001 - ord,
{
    if cur.len() == 0 || ord > 10000 {
        ord
    } else {
        order_from(pres, w, normal_form(pres, cur + w), ord + 1)
    }
}

/// The `k`-th power of `w`, multiplied out one factor at a time from the right.
pub open spec fn right_power(pres: Presentation, w: Seq<Term>, k: nat) -> Seq<Term>
    decreases k,
{
    if k == 0 {
        Seq::empty()
    } else {
        normal_form(pres, right_power(pres, w, (k - 1) as nat) + w)
    }
}

proof fn lemma_order_from(pres: Presentation, w: Seq<Term>, ord: nat)
    requires
        ord >= 1,
        forall|k: nat| 0 < k < ord ==> #[trigger] right_power(pres, w, k).len() > 0,
    ensures
        order_from(pres, w, right_power(pres, w, ord), ord) >= ord,
        ord <= 10001 ==> order_from(pres, w, right_power(pres, w, ord), ord) <= 10001,
        order_from(pres, w, right_power(pres, w, ord), ord) <= 10000 ==> right_power(
            pres,
            w,
            order_from(pres, w, right_power(pres, w, ord), ord),
        ).len() == 0,
        forall|k: nat| 0 < k < order_from(pres, w, right_power(pres, w, ord), ord) ==> #[trigger] right_power(pres, w, k).len() > 0,
    decreases 10001 - ord,
{
    if right_power(pres, w, ord).len() == 0 || ord > 10000 {
    } else {
        assert(right_power(pres, w, ord + 1) == normal_form(pres, right_power(pres, w, ord) + w));
        lemma_order_from(pres, w, ord + 1);
    }
}

/// The order found for a normal form word `w` is the least `k > 0` with `w^k = 1`, where the
/// powers are multiplied out one factor at a time, provided it is at most `10000`; otherwise no
/// power up to `10000` is the identity and the order found is `10001`.
pub proof fn lemma_element_order(pres: Presentation, w: Seq<Term>)
    requires
        pres.collectable(),
        is_normal_terms(w, pres.ro()),
    ensures
        1 <= element_order(pres, w) <= 10001,
        element_order(pres, w) <= 10000 ==> right_power(pres, w, element_order(pres, w)).len() == 0,
        forall|k: nat| 0 < k < element_order(pres, w) ==> #[trigger] right_power(pres, w, k).len() > 0,
{
    crate::element::lemma_identity_product(pres, w);
    assert(right_power(pres, w, 0) == Seq::<Term>::empty());
    assert(right_power(pres, w, 1) == w);
    lemma_order_from(pres, w, 1);
}

/// The order of the element with normal form `w`, found by repeated multiplication and capped at
/// `10001`.
pub open spec fn element_order(pres: Presentation, w: Seq<Term>) -> nat {
    order_from(pres, w, w, 1)
}

/// The least common multiple of the orders of all elements whose exponent vector starts with
/// `prefix`.
pub open spec fn exponent_from(pres: Presentation, prefix: Seq<u32>) -> nat
    decreases pres.n() - prefix.len(), 1int, 0int,
{
    if prefix.len() >= pres.n() {
        element_order(pres, exps_to_terms(prefix))
    } else {
        exponent_range(pres, prefix, pres.ro()[prefix.len() as int] as nat)
    }
}

/// The least common multiple of [`exponent_from`] over the prefixes `prefix + [a']`, `a' < a`.
pub open spec fn exponent_range(pres: Presentation, prefix: Seq<u32>, a: nat) -> nat
    decreases pres.n() - prefix.len(), 0int, a,
{
    if prefix.len() >= pres.n() || a == 0 {
        1
    } else {
        lcm_u32(exponent_range(pres, prefix, (a - 1) as nat), exponent_from(pres, prefix.push((a - 1) as u32)))
    }
}

/// The exponent of the group: the least common multiple of the orders of all its elements, each
/// element taken by its exponent vector.
pub open spec fn spec_group_exponent(pres: Presentation) -> nat {
    exponent_from(pres, Seq::empty())
}

/// The least common multiple of the orders of the elements with the given exponent prefix.
fn exponent_of_prefix(pres: &Presentation, prefix: &Vec<u32>) -> (e: u32)
    requires
        pres.collectable(),
        prefix@.len() <= pres.n(),
        forall|i: int| 0 <= i < prefix@.len() ==> #[trigger] prefix@[i] < pres.ro()[i],
    ensures
        e == exponent_from(*pres, prefix@),
    decreases pres.n() - prefix@.len(),
{
    let n = pres.num_gens();
    if prefix.len() >= n {
        let mut terms: Vec<Term> = Vec::new();
        let mut g: usize = 0;
        while g < prefix.len()
            invariant
                g <= prefix@.len(),
                terms@ == exps_to_terms(prefix@.take(g as int)),
            decreases prefix@.len() - g,
        {
            assert(prefix@.take(g as int + 1).drop_last() =~= prefix@.take(g as int));
            if prefix[g] > 0 {
                terms.push(Term::new(g, prefix[g]));
            }
            g = g + 1;
        }
        assert(prefix@.take(g as int) =~= prefix@);
        proof {
            pres.lemma_n_fits();
            lemma_exps_to_terms_normal(prefix@, pres.ro());
        }
        let elem = Element::new(Word::new(terms), pres);
        let ghost w = elem.word.terms@;
        let mut cur = elem.duplicate();
        let mut ord: u32 = 1;
        while !cur.is_identity() && ord <= 10000
            invariant
                1 <= ord <= 10001,
                pres.collectable(),
                elem.valid(),
                elem.pres == pres,
                w == elem.word.terms@,
                cur.valid(),
                cur.pres == pres,
                order_from(*pres, w, cur.word.terms@, ord as nat) == element_order(*pres, w),
            decreases 10001 - ord,
        {
            cur = cur.product(&elem);
            ord = ord + 1;
        }
        return ord;
    }
    let top = pres.relative_order(prefix.len());
    let mut acc: u32 = 1;
    let mut a: u32 = 0;
    while a < top
        invariant
            a <= top,
            top == pres.ro()[prefix@.len() as int],
            prefix@.len() < pres.n(),
            n == pres.n(),
            pres.collectable(),
            forall|i: int| 0 <= i < prefix@.len() ==> #[trigger] prefix@[i] < pres.ro()[i],
            acc == exponent_range(*pres, prefix@, a as nat),
        decreases top - a,
    {
        let mut next: Vec<u32> = Vec::new();
        let mut k: usize = 0;
        while k < prefix.len()
            invariant
                k <= prefix@.len(),
                next@ == prefix@.take(k as int),
            decreases prefix@.len() - k,
        {
            next.push(prefix[k]);
            k = k + 1;
            assert(next@ =~= prefix@.take(k as int));
        }
        next.push(a);
        proof {
            assert(prefix@.take(prefix@.len() as int) =~= prefix@);
            assert(next@ == prefix@.push(a));
        }
        let sub = exponent_of_prefix(pres, &next);
        acc = crate::util::ntheory::lcm(acc, sub);
        a = a + 1;
    }
    acc
}

/// Computes the group exponent `e = lcm(ord(g))` over all elements `g` of the group (orders
/// found by repeated multiplication, capped at `10001`).
pub fn group_exponent(pres: &Presentation) -> (e: u32)
    requires
        pres.collectable(),
    ensures
        e == spec_group_exponent(*pres),
{
    let prefix: Vec<u32> = Vec::new();
    exponent_of_prefix(pres, &prefix)
}

/// The chief series of a supersolvable group: every step drops one generator, down to the
/// trivial subgroup.
pub open spec fn supersolvable_series(ser: Seq<Seq<Seq<Term>>>) -> bool {
    ser.last().len() == 0 && forall|i: int| 0 <= i < ser.len() - 1 ==> #[trigger] ser[i].len() == ser[i + 1].len() + 1
}

/// Computes a full set of irreducible representations of a supersolvable group, walking its
/// chief series bottom-up from the trivial stage with the group exponent as root-of-unity
/// order. A group that is not supersolvable is refused.
pub fn irreducible_representations(pres: &Presentation) -> (res: Result<Vec<Representation>, BaumClausenError>)
    requires
        pres.collectable(),
    ensures
        res matches Err(BaumClausenError::NotSupersolvable) ==> exists|ser: Seq<Seq<Seq<Term>>>|
            #[trigger] chief_shape(*pres, ser) && !supersolvable_series(ser),
        res is Ok ==> exists|ser: Seq<Seq<Seq<Term>>>| #[trigger] chief_shape(*pres, ser) && supersolvable_series(ser),
        res matches Ok(reps) ==> reps@.len() >= 1 && reps_ok(reps@, pres.n(), spec_group_exponent(*pres) as u32),
{
    if !is_supersolvable(pres) {
        return Err(BaumClausenError::NotSupersolvable);
    }
    let chief = chief_series(pres);
    let exponent = group_exponent(pres);
    if exponent == 0 || exponent > 0x8000_0000 {
        return Err(BaumClausenError::InvalidStageTransition);
    }
    let mut stage = BaumClausenStage::trivial(pres, exponent);
    let mut idx = chief.len() - 1;
    while idx > 0
        invariant
            idx < chief@.len(),
            stage.wf(),
            stage.exponent == exponent,
            stage.pres == pres,
            stage.representations@.len() >= 1,
        decreases idx,
    {
        idx = idx - 1;
        stage = match stage.next(&chief[idx]) {
            Ok(s) => s,
            Err(err) => {
                return Err(err);
            },
        };
    }
    Ok(stage.representations)
}

} // verus!
