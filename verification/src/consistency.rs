//! Consistency checking of PC presentations by collecting their critical overlaps.
use vstd::prelude::*;

use crate::collection::{halts, lemma_run_is_iter, run, term_fits};
use crate::collector::{zeros, Collector};
use crate::element::{lemma_collect_more, lemma_normal_fits, normal_form};
use crate::presentation::Presentation;
use crate::text::{decimal, push_decimal, push_str};
use crate::util::ntheory::spec_is_prime;
use crate::word::{is_normal_terms, Term};

verus! {

/// Errors that can occur when verifying the consistency of a PC presentation.
#[derive(Debug, Clone, PartialEq, Eq, Structural)]
pub enum ConsistencyError {
    /// Inconsistency in the overlap of three distinct generators `gk * gj * gi` where `k > j > i`.
    ThreeGenerators {
        /// The largest generator index `k`.
        k: usize,
        /// The middle generator index `j`.
        j: usize,
        /// The smallest generator index `i`.
        i: usize,
    },
    /// Inconsistency in the overlap of a power and a smaller generator `gj^pj * gi` where `j > i`.
    PowerAndSmallerGenerator {
        /// The larger generator index `j`.
        j: usize,
        /// The smaller generator index `i`.
        i: usize,
    },
    /// Inconsistency in the overlap of a larger generator and a power `gk * gj^pj` where `k > j`.
    LargerGeneratorAndPower {
        /// The larger generator index `k`.
        k: usize,
        /// The smaller generator index `j`.
        j: usize,
    },
    /// Inconsistency in the overlap of a power and itself `gi^(pi + 1)` for generator `gi`.
    PowerAndItself {
        /// The generator index `i`.
        i: usize,
    },
}

impl ConsistencyError {
    /// The human-readable message of the error.
    pub open spec fn spec_text(self) -> Seq<char> {
        match self {
            ConsistencyError::ThreeGenerators { k, j, i } =>
                "Consistency check failed for three generators overlap: (g"@ + decimal(k as nat)
                + " * g"@ + decimal(j as nat) + ") * g"@ + decimal(i as nat) + " != g"@ + decimal(
                k as nat,
            ) + " * (g"@ + decimal(j as nat) + " * g"@ + decimal(i as nat) + ")"@,
            ConsistencyError::PowerAndSmallerGenerator { j, i } =>
                "Consistency check failed for power and smaller generator overlap: (g"@ + decimal(
                j as nat,
            ) + "^p"@ + decimal(j as nat) + ") * g"@ + decimal(i as nat) + " != g"@ + decimal(
                j as nat,
            ) + "^(p"@ + decimal(j as nat) + "-1) * (g"@ + decimal(j as nat) + " * g"@ + decimal(
                i as nat,
            ) + ")"@,
            ConsistencyError::LargerGeneratorAndPower { k, j } =>
                "Consistency check failed for larger generator and power overlap: (g"@ + decimal(
                k as nat,
            ) + " * g"@ + decimal(j as nat) + ") * g"@ + decimal(j as nat) + "^(p"@ + decimal(
                j as nat,
            ) + "-1) != g"@ + decimal(k as nat) + " * (g"@ + decimal(j as nat) + "^p"@ + decimal(
                j as nat,
            ) + ")"@,
            ConsistencyError::PowerAndItself { i } =>
                "Consistency check failed for power and itself overlap: (g"@ + decimal(i as nat)
                + "^p"@ + decimal(i as nat) + ") * g"@ + decimal(i as nat) + " != g"@ + decimal(
                i as nat,
            ) + " * (g"@ + decimal(i as nat) + "^p"@ + decimal(i as nat) + ")"@,
        }
    }

    /// Returns the human-readable message of the error.
    pub fn to_string(&self) -> (s: String)
        ensures
            s@ == self.spec_text(),
    {
        let mut s = String::new();
        match self {
            ConsistencyError::ThreeGenerators { k, j, i } => {
                push_str(&mut s, "Consistency check failed for three generators overlap: (g");
                push_decimal(&mut s, *k as u64);
                push_str(&mut s, " * g");
                push_decimal(&mut s, *j as u64);
                push_str(&mut s, ") * g");
                push_decimal(&mut s, *i as u64);
                push_str(&mut s, " != g");
                push_decimal(&mut s, *k as u64);
                push_str(&mut s, " * (g");
                push_decimal(&mut s, *j as u64);
                push_str(&mut s, " * g");
                push_decimal(&mut s, *i as u64);
                push_str(&mut s, ")");
            },
            ConsistencyError::PowerAndSmallerGenerator { j, i } => {
                push_str(
                    &mut s,
                    "Consistency check failed for power and smaller generator overlap: (g",
                );
                push_decimal(&mut s, *j as u64);
                push_str(&mut s, "^p");
                push_decimal(&mut s, *j as u64);
                push_str(&mut s, ") * g");
                push_decimal(&mut s, *i as u64);
                push_str(&mut s, " != g");
                push_decimal(&mut s, *j as u64);
                push_str(&mut s, "^(p");
                push_decimal(&mut s, *j as u64);
                push_str(&mut s, "-1) * (g");
                push_decimal(&mut s, *j as u64);
                push_str(&mut s, " * g");
                push_decimal(&mut s, *i as u64);
                push_str(&mut s, ")");
            },
            ConsistencyError::LargerGeneratorAndPower { k, j } => {
                push_str(
                    &mut s,
                    "Consistency check failed for larger generator and power overlap: (g",
                );
                push_decimal(&mut s, *k as u64);
                push_str(&mut s, " * g");
                push_decimal(&mut s, *j as u64);
                push_str(&mut s, ") * g");
                push_decimal(&mut s, *j as u64);
                push_str(&mut s, "^(p");
                push_decimal(&mut s, *j as u64);
                push_str(&mut s, "-1) != g");
                push_decimal(&mut s, *k as u64);
                push_str(&mut s, " * (g");
                push_decimal(&mut s, *j as u64);
                push_str(&mut s, "^p");
                push_decimal(&mut s, *j as u64);
                push_str(&mut s, ")");
            },
            ConsistencyError::PowerAndItself { i } => {
                push_str(&mut s, "Consistency check failed for power and itself overlap: (g");
                push_decimal(&mut s, *i as u64);
                push_str(&mut s, "^p");
                push_decimal(&mut s, *i as u64);
                push_str(&mut s, ") * g");
                push_decimal(&mut s, *i as u64);
                push_str(&mut s, " != g");
                push_decimal(&mut s, *i as u64);
                push_str(&mut s, " * (g");
                push_decimal(&mut s, *i as u64);
                push_str(&mut s, "^p");
                push_decimal(&mut s, *i as u64);
                push_str(&mut s, ")");
            },
        }
        assert(s@ =~= self.spec_text());
        s
    }
}

/// The term `g_g^e`.
pub open spec fn gen_term(g: nat, e: nat) -> Term {
    Term { gen_index: g as usize, exponent: e as u32 }
}

impl Presentation {
    /// Every relation word is a normal form word.
    pub open spec fn relations_normal(&self) -> bool {
        &&& forall|i: int| 0 <= i < self.n() ==> is_normal_terms(#[trigger] self.pw(i), self.ro())
        &&& forall|i: int, j: int|
            0 <= j < i < self.n() ==> is_normal_terms(#[trigger] self.cm(i, j), self.ro())
    }
}

/// `(gk gj) gi` and `gk (gj gi)` collect to the same normal form.
pub open spec fn three_generators_agree(pres: Presentation, k: nat, j: nat, i: nat) -> bool {
    normal_form(
        pres,
        seq![gen_term(j, 1), gen_term(k, 1)] + pres.cm(k as int, j as int) + seq![gen_term(i, 1)],
    ) == normal_form(
        pres,
        seq![gen_term(k, 1), gen_term(i, 1), gen_term(j, 1)] + pres.cm(j as int, i as int),
    )
}

/// `(gj^pj) gi` and `gj^(pj-1) (gj gi)` collect to the same normal form.
pub open spec fn power_and_smaller_agree(pres: Presentation, j: nat, i: nat) -> bool {
    normal_form(pres, pres.pw(j as int) + seq![gen_term(i, 1)]) == normal_form(
        pres,
        seq![gen_term(j, (pres.ro()[j as int] - 1) as nat), gen_term(i, 1), gen_term(j, 1)]
            + pres.cm(j as int, i as int),
    )
}

/// `(gk gj) gj^(pj-1)` and `gk (gj^pj)` collect to the same normal form.
pub open spec fn larger_and_power_agree(pres: Presentation, k: nat, j: nat) -> bool {
    normal_form(
        pres,
        seq![gen_term(j, 1), gen_term(k, 1)] + pres.cm(k as int, j as int) + seq![
            gen_term(j, (pres.ro()[j as int] - 1) as nat),
        ],
    ) == normal_form(pres, seq![gen_term(k, 1)] + pres.pw(j as int))
}

/// `(gi^pi) gi` and `gi (gi^pi)` collect to the same normal form.
pub open spec fn power_and_itself_agree(pres: Presentation, i: nat) -> bool {
    normal_form(pres, pres.pw(i as int) + seq![gen_term(i, 1)]) == normal_form(
        pres,
        seq![gen_term(i, 1)] + pres.pw(i as int),
    )
}

/// Every three-generator overlap checked before `(k, j, i)` (in increasing order of `k`, then
/// `j`, then `i`) agrees.
pub open spec fn three_generators_before(pres: Presentation, k: nat, j: nat, i: nat) -> bool {
    forall|k2: nat, j2: nat, i2: nat|
        i2 < j2 < k2 < pres.n() && (k2 < k || (k2 == k && (j2 < j || (j2 == j && i2 < i))))
            ==> #[trigger] three_generators_agree(pres, k2, j2, i2)
}

/// Every power-and-smaller-generator overlap checked before `(j, i)` agrees.
pub open spec fn power_and_smaller_before(pres: Presentation, j: nat, i: nat) -> bool {
    forall|j2: nat, i2: nat|
        i2 < j2 < pres.n() && (j2 < j || (j2 == j && i2 < i)) ==> #[trigger] power_and_smaller_agree(
            pres,
            j2,
            i2,
        )
}

/// Every larger-generator-and-power overlap checked before `(k, j)` agrees.
pub open spec fn larger_and_power_before(pres: Presentation, k: nat, j: nat) -> bool {
    forall|k2: nat, j2: nat|
        j2 < k2 < pres.n() && (k2 < k || (k2 == k && j2 < j)) ==> #[trigger] larger_and_power_agree(
            pres,
            k2,
            j2,
        )
}

/// Every power-and-itself overlap checked before `i` agrees.
pub open spec fn power_and_itself_before(pres: Presentation, i: nat) -> bool {
    forall|i2: nat| i2 < pres.n() && i2 < i ==> #[trigger] power_and_itself_agree(pres, i2)
}

/// All critical overlaps of the presentation collect to the same normal forms both ways.
pub open spec fn consistent(pres: Presentation) -> bool {
    &&& three_generators_before(pres, pres.n(), 0, 0)
    &&& power_and_smaller_before(pres, pres.n(), 0)
    &&& larger_and_power_before(pres, pres.n(), 0)
    &&& power_and_itself_before(pres, pres.n())
}

/// The consistency of a presentation, written out: every critical overlap `gk gj gi`
/// (`k > j > i`), `gj^pj gi` (`j > i`), `gk gj^pj` (`k > j`) and `gi^(pi + 1)` collects to the
/// same normal form along both of its rewritings.
pub proof fn lemma_consistent_overlaps(pres: Presentation)
    ensures
        consistent(pres) == ((forall|k: nat, j: nat, i: nat|
            #![trigger pres.cm(k as int, j as int), pres.cm(j as int, i as int)]
            i < j < k < pres.n() ==> normal_form(
                    pres,
                    seq![Term { gen_index: j as usize, exponent: 1 }, Term { gen_index: k as usize, exponent: 1 }] + pres.cm(k as int, j as int) + seq![Term { gen_index: i as usize, exponent: 1 }],
                ) == normal_form(
                    pres,
                    seq![Term { gen_index: k as usize, exponent: 1 }, Term { gen_index: i as usize, exponent: 1 }, Term { gen_index: j as usize, exponent: 1 }] + pres.cm(j as int, i as int),
                )) && (forall|j: nat, i: nat|
            #![trigger pres.pw(j as int), pres.cm(j as int, i as int)]
            i < j < pres.n() ==> normal_form(pres, pres.pw(j as int) + seq![Term { gen_index: i as usize, exponent: 1 }]) == normal_form(
                    pres,
                    seq![Term { gen_index: j as usize, exponent: ((pres.ro()[j as int] - 1) as nat) as u32 }, Term { gen_index: i as usize, exponent: 1 }, Term { gen_index: j as usize, exponent: 1 }] + pres.cm(j as int, i as int),
                )) && (forall|k: nat, j: nat|
            #![trigger pres.cm(k as int, j as int), pres.pw(j as int)]
            j < k < pres.n() ==> normal_form(
                    pres,
                    seq![Term { gen_index: j as usize, exponent: 1 }, Term { gen_index: k as usize, exponent: 1 }] + pres.cm(k as int, j as int) + seq![Term { gen_index: j as usize, exponent: ((pres.ro()[j as int] - 1) as nat) as u32 }],
                ) == normal_form(pres, seq![Term { gen_index: k as usize, exponent: 1 }] + pres.pw(j as int))) && (forall|i: nat|
            #![trigger pres.pw(i as int)]
            i < pres.n() ==> normal_form(pres, pres.pw(i as int) + seq![Term { gen_index: i as usize, exponent: 1 }]) == normal_form(pres, seq![Term { gen_index: i as usize, exponent: 1 }] + pres.pw(i as int)))),
{
    if consistent(pres) {
        assert forall|k: nat, j: nat, i: nat|
            #![trigger pres.cm(k as int, j as int), pres.cm(j as int, i as int)]
            i < j < k < pres.n() implies normal_form(
                    pres,
                    seq![Term { gen_index: j as usize, exponent: 1 }, Term { gen_index: k as usize, exponent: 1 }] + pres.cm(k as int, j as int) + seq![Term { gen_index: i as usize, exponent: 1 }],
                ) == normal_form(
                    pres,
                    seq![Term { gen_index: k as usize, exponent: 1 }, Term { gen_index: i as usize, exponent: 1 }, Term { gen_index: j as usize, exponent: 1 }] + pres.cm(j as int, i as int),
                ) by {
            assert(three_generators_agree(pres, k, j, i));
        }
        assert forall|j: nat, i: nat|
            #![trigger pres.pw(j as int), pres.cm(j as int, i as int)]
            i < j < pres.n() implies normal_form(pres, pres.pw(j as int) + seq![Term { gen_index: i as usize, exponent: 1 }]) == normal_form(
                    pres,
                    seq![Term { gen_index: j as usize, exponent: ((pres.ro()[j as int] - 1) as nat) as u32 }, Term { gen_index: i as usize, exponent: 1 }, Term { gen_index: j as usize, exponent: 1 }] + pres.cm(j as int, i as int),
                ) by {
            assert(power_and_smaller_agree(pres, j, i));
        }
        assert forall|k: nat, j: nat|
            #![trigger pres.cm(k as int, j as int), pres.pw(j as int)]
            j < k < pres.n() implies normal_form(
                    pres,
                    seq![Term { gen_index: j as usize, exponent: 1 }, Term { gen_index: k as usize, exponent: 1 }] + pres.cm(k as int, j as int) + seq![Term { gen_index: j as usize, exponent: ((pres.ro()[j as int] - 1) as nat) as u32 }],
                ) == normal_form(pres, seq![Term { gen_index: k as usize, exponent: 1 }] + pres.pw(j as int)) by {
            assert(larger_and_power_agree(pres, k, j));
        }
        assert forall|i: nat|
            #![trigger pres.pw(i as int)]
            i < pres.n() implies normal_form(pres, pres.pw(i as int) + seq![Term { gen_index: i as usize, exponent: 1 }]) == normal_form(pres, seq![Term { gen_index: i as usize, exponent: 1 }] + pres.pw(i as int)) by {
            assert(power_and_itself_agree(pres, i));
        }
    }
    if !consistent(pres) {
        if !three_generators_before(pres, pres.n(), 0, 0) {
            let (k, j, i) = choose|k: nat, j: nat, i: nat|
                i < j < k < pres.n() && !#[trigger] three_generators_agree(pres, k, j, i);
            assert(pres.cm(k as int, j as int) == pres.cm(k as int, j as int));
            assert(pres.cm(j as int, i as int) == pres.cm(j as int, i as int));
        } else if !power_and_smaller_before(pres, pres.n(), 0) {
            let (j, i) = choose|j: nat, i: nat| i < j < pres.n() && !#[trigger] power_and_smaller_agree(pres, j, i);
            assert(pres.pw(j as int) == pres.pw(j as int));
            assert(pres.cm(j as int, i as int) == pres.cm(j as int, i as int));
        } else if !larger_and_power_before(pres, pres.n(), 0) {
            let (k, j) = choose|k: nat, j: nat| j < k < pres.n() && !#[trigger] larger_and_power_agree(pres, k, j);
            assert(pres.cm(k as int, j as int) == pres.cm(k as int, j as int));
            assert(pres.pw(j as int) == pres.pw(j as int));
        } else {
            let i = choose|i: nat| i < pres.n() && !#[trigger] power_and_itself_agree(pres, i);
            assert(pres.pw(i as int) == pres.pw(i as int));
        }
    }
}

/// `e` names the first critical overlap, in the order of the check, whose two sides differ.
pub open spec fn first_failure(pres: Presentation, e: ConsistencyError) -> bool {
    let n = pres.n();
    match e {
        ConsistencyError::ThreeGenerators { k, j, i } => {
            &&& i < j < k < n
            &&& !three_generators_agree(pres, k as nat, j as nat, i as nat)
            &&& three_generators_before(pres, k as nat, j as nat, i as nat)
        },
        ConsistencyError::PowerAndSmallerGenerator { j, i } => {
            &&& i < j < n
            &&& !power_and_smaller_agree(pres, j as nat, i as nat)
            &&& three_generators_before(pres, n, 0, 0)
            &&& power_and_smaller_before(pres, j as nat, i as nat)
        },
        ConsistencyError::LargerGeneratorAndPower { k, j } => {
            &&& j < k < n
            &&& !larger_and_power_agree(pres, k as nat, j as nat)
            &&& three_generators_before(pres, n, 0, 0)
            &&& power_and_smaller_before(pres, n, 0)
            &&& larger_and_power_before(pres, k as nat, j as nat)
        },
        ConsistencyError::PowerAndItself { i } => {
            &&& i < n
            &&& !power_and_itself_agree(pres, i as nat)
            &&& three_generators_before(pres, n, 0, 0)
            &&& power_and_smaller_before(pres, n, 0)
            &&& larger_and_power_before(pres, n, 0)
            &&& power_and_itself_before(pres, i as nat)
        },
    }
}

/// One more collection call on a collector that holds the collected form of `acc` leaves the
/// collected form of `acc x`.
proof fn lemma_track(pres: Presentation, acc: Seq<Term>, x: Seq<Term>, e_prev: Seq<u32>, e_next: Seq<u32>)
    requires
        pres.collectable(),
        forall|i: int| 0 <= i < acc.len() ==> term_fits(#[trigger] acc[i], pres.ro()),
        forall|i: int| 0 <= i < x.len() ==> term_fits(#[trigger] x[i], pres.ro()),
        e_prev == run(pres, (zeros(pres.n()), acc.reverse())).0,
        e_next == run(pres, (e_prev, x.reverse())).0,
    ensures
        e_next == run(pres, (zeros(pres.n()), (acc + x).reverse())).0,
        forall|i: int| 0 <= i < (acc + x).len() ==> term_fits(#[trigger] (acc + x)[i], pres.ro()),
{
    lemma_collect_more(pres, acc, x);
}

/// A single term reversed is itself, and a generator to the power one or `p - 1` fits.
proof fn lemma_single(pres: Presentation, g: nat, e: nat)
    requires
        pres.collectable(),
        g < pres.n(),
        e == 1 || e == pres.ro()[g as int] - 1,
    ensures
        seq![gen_term(g, e)].reverse() == seq![gen_term(g, e)],
        forall|i: int|
            0 <= i < seq![gen_term(g, e)].len() ==> term_fits(
                #[trigger] seq![gen_term(g, e)][i],
                pres.ro(),
            ),
{
    assert(seq![gen_term(g, e)].reverse() =~= seq![gen_term(g, e)]);
    assert(pres.ro()[g as int] <= 0x8000_0000);
    assert(spec_is_prime(pres.ro()[g as int] as int));
}

/// The collector starts from the collected form of the empty word.
proof fn lemma_start(pres: Presentation)
    ensures
        run(pres, (zeros(pres.n()), Seq::<Term>::empty().reverse())).0 == zeros(pres.n()),
{
    let s = (zeros(pres.n()), Seq::<Term>::empty().reverse());
    assert(s.1.len() == 0);
    assert(halts(pres, s, 0));
    lemma_run_is_iter(pres, s, 0);
}

/// Collects both sides of the overlap `gk gj gi` and compares them.
fn three_generators_overlap(pres: &Presentation, k: usize, j: usize, i: usize) -> (b: bool)
    requires
        pres.collectable(),
        pres.relations_normal(),
        i < j < k < pres.n(),
    ensures
        b == three_generators_agree(*pres, k as nat, j as nat, i as nat),
{
    let ghost pv = *pres;
    let mut col_left = Collector::new(pres);
    let ghost e0 = col_left.exps();
    col_left.collect_generator(j, 1);
    let ghost e1 = col_left.exps();
    col_left.collect_generator(k, 1);
    let ghost e2 = col_left.exps();
    col_left.collect(pres.commutator(k, j));
    let ghost e3 = col_left.exps();
    col_left.collect_generator(i, 1);
    let ghost e4 = col_left.exps();

    let mut col_right = Collector::new(pres);
    col_right.collect_generator(k, 1);
    let ghost f1 = col_right.exps();
    col_right.collect_generator(i, 1);
    let ghost f2 = col_right.exps();
    col_right.collect_generator(j, 1);
    let ghost f3 = col_right.exps();
    col_right.collect(pres.commutator(j, i));
    let ghost f4 = col_right.exps();
    proof {
        let gi = seq![gen_term(i as nat, 1)];
        let gj = seq![gen_term(j as nat, 1)];
        let gk = seq![gen_term(k as nat, 1)];
        let ckj = pv.cm(k as int, j as int);
        let cji = pv.cm(j as int, i as int);
        let em = Seq::<Term>::empty();
        lemma_single(pv, i as nat, 1);
        lemma_single(pv, j as nat, 1);
        lemma_single(pv, k as nat, 1);
        lemma_normal_fits(pv, ckj);
        lemma_normal_fits(pv, cji);
        lemma_start(pv);
        lemma_track(pv, em, gj, e0, e1);
        lemma_track(pv, em + gj, gk, e1, e2);
        lemma_track(pv, em + gj + gk, ckj, e2, e3);
        lemma_track(pv, em + gj + gk + ckj, gi, e3, e4);
        assert(em + gj + gk + ckj + gi =~= seq![gen_term(j as nat, 1), gen_term(k as nat, 1)] + ckj
            + gi);
        lemma_track(pv, em, gk, e0, f1);
        lemma_track(pv, em + gk, gi, f1, f2);
        lemma_track(pv, em + gk + gi, gj, f2, f3);
        lemma_track(pv, em + gk + gi + gj, cji, f3, f4);
        assert(em + gk + gi + gj + cji =~= seq![
            gen_term(k as nat, 1),
            gen_term(i as nat, 1),
            gen_term(j as nat, 1),
        ] + cji);
    }
    let left = col_left.into_word();
    let right = col_right.into_word();
    left.same_as(&right)
}

/// Collects both sides of the overlap `gj^pj gi` and compares them.
fn power_and_smaller_overlap(pres: &Presentation, j: usize, i: usize) -> (b: bool)
    requires
        pres.collectable(),
        pres.relations_normal(),
        i < j < pres.n(),
    ensures
        b == power_and_smaller_agree(*pres, j as nat, i as nat),
{
    let ghost pv = *pres;
    let p_j = pres.relative_order(j);
    proof {
        assert(spec_is_prime(pv.ro()[j as int] as int));
    }
    let mut col_left = Collector::new(pres);
    let ghost e0 = col_left.exps();
    col_left.collect(pres.power(j));
    let ghost e1 = col_left.exps();
    col_left.collect_generator(i, 1);
    let ghost e2 = col_left.exps();

    let mut col_right = Collector::new(pres);
    col_right.collect_generator(j, p_j - 1);
    let ghost f1 = col_right.exps();
    col_right.collect_generator(i, 1);
    let ghost f2 = col_right.exps();
    col_right.collect_generator(j, 1);
    let ghost f3 = col_right.exps();
    col_right.collect(pres.commutator(j, i));
    let ghost f4 = col_right.exps();
    proof {
        let gi = seq![gen_term(i as nat, 1)];
        let gj = seq![gen_term(j as nat, 1)];
        let gjp = seq![gen_term(j as nat, (p_j - 1) as nat)];
        let pwj = pv.pw(j as int);
        let cji = pv.cm(j as int, i as int);
        let em = Seq::<Term>::empty();
        lemma_single(pv, i as nat, 1);
        lemma_single(pv, j as nat, 1);
        lemma_single(pv, j as nat, (p_j - 1) as nat);
        lemma_normal_fits(pv, pwj);
        lemma_normal_fits(pv, cji);
        lemma_start(pv);
        lemma_track(pv, em, pwj, e0, e1);
        lemma_track(pv, em + pwj, gi, e1, e2);
        assert(em + pwj + gi =~= pwj + gi);
        lemma_track(pv, em, gjp, e0, f1);
        lemma_track(pv, em + gjp, gi, f1, f2);
        lemma_track(pv, em + gjp + gi, gj, f2, f3);
        lemma_track(pv, em + gjp + gi + gj, cji, f3, f4);
        assert(em + gjp + gi + gj + cji =~= seq![
            gen_term(j as nat, (pv.ro()[j as int] - 1) as nat),
            gen_term(i as nat, 1),
            gen_term(j as nat, 1),
        ] + cji);
    }
    let left = col_left.into_word();
    let right = col_right.into_word();
    left.same_as(&right)
}

/// Collects both sides of the overlap `gk gj^pj` and compares them.
fn larger_and_power_overlap(pres: &Presentation, k: usize, j: usize) -> (b: bool)
    requires
        pres.collectable(),
        pres.relations_normal(),
        j < k < pres.n(),
    ensures
        b == larger_and_power_agree(*pres, k as nat, j as nat),
{
    let ghost pv = *pres;
    let p_j = pres.relative_order(j);
    proof {
        assert(spec_is_prime(pv.ro()[j as int] as int));
    }
    let mut col_left = Collector::new(pres);
    let ghost e0 = col_left.exps();
    col_left.collect_generator(j, 1);
    let ghost e1 = col_left.exps();
    col_left.collect_generator(k, 1);
    let ghost e2 = col_left.exps();
    col_left.collect(pres.commutator(k, j));
    let ghost e3 = col_left.exps();
    col_left.collect_generator(j, p_j - 1);
    let ghost e4 = col_left.exps();

    let mut col_right = Collector::new(pres);
    col_right.collect_generator(k, 1);
    let ghost f1 = col_right.exps();
    col_right.collect(pres.power(j));
    let ghost f2 = col_right.exps();
    proof {
        let gj = seq![gen_term(j as nat, 1)];
        let gk = seq![gen_term(k as nat, 1)];
        let gjp = seq![gen_term(j as nat, (p_j - 1) as nat)];
        let pwj = pv.pw(j as int);
        let ckj = pv.cm(k as int, j as int);
        let em = Seq::<Term>::empty();
        lemma_single(pv, k as nat, 1);
        lemma_single(pv, j as nat, 1);
        lemma_single(pv, j as nat, (p_j - 1) as nat);
        lemma_normal_fits(pv, pwj);
        lemma_normal_fits(pv, ckj);
        lemma_start(pv);
        lemma_track(pv, em, gj, e0, e1);
        lemma_track(pv, em + gj, gk, e1, e2);
        lemma_track(pv, em + gj + gk, ckj, e2, e3);
        lemma_track(pv, em + gj + gk + ckj, gjp, e3, e4);
        assert(em + gj + gk + ckj + gjp =~= seq![gen_term(j as nat, 1), gen_term(k as nat, 1)]
            + ckj + seq![gen_term(j as nat, (pv.ro()[j as int] - 1) as nat)]);
        lemma_track(pv, em, gk, e0, f1);
        lemma_track(pv, em + gk, pwj, f1, f2);
        assert(em + gk + pwj =~= gk + pwj);
    }
    let left = col_left.into_word();
    let right = col_right.into_word();
    left.same_as(&right)
}

/// Collects both sides of the overlap `gi^(pi + 1)` and compares them.
fn power_and_itself_overlap(pres: &Presentation, i: usize) -> (b: bool)
    requires
        pres.collectable(),
        pres.relations_normal(),
        i < pres.n(),
    ensures
        b == power_and_itself_agree(*pres, i as nat),
{
    let ghost pv = *pres;
    let mut col_left = Collector::new(pres);
    let ghost e0 = col_left.exps();
    col_left.collect(pres.power(i));
    let ghost e1 = col_left.exps();
    col_left.collect_generator(i, 1);
    let ghost e2 = col_left.exps();

    let mut col_right = Collector::new(pres);
    col_right.collect_generator(i, 1);
    let ghost f1 = col_right.exps();
    col_right.collect(pres.power(i));
    let ghost f2 = col_right.exps();
    proof {
        let gi = seq![gen_term(i as nat, 1)];
        let pwi = pv.pw(i as int);
        let em = Seq::<Term>::empty();
        lemma_single(pv, i as nat, 1);
        lemma_normal_fits(pv, pwi);
        lemma_start(pv);
        lemma_track(pv, em, pwi, e0, e1);
        lemma_track(pv, em + pwi, gi, e1, e2);
        assert(em + pwi + gi =~= pwi + gi);
        lemma_track(pv, em, gi, e0, f1);
        lemma_track(pv, em + gi, pwi, f1, f2);
        assert(em + gi + pwi =~= gi + pwi);
    }
    let left = col_left.into_word();
    let right = col_right.into_word();
    left.same_as(&right)
}

/// Verifies the consistency (confluence) of a PC presentation in `O(n^3)` collections.
///
/// A PC presentation is consistent if and only if normal forms are unique, which holds if all
/// critical overlaps collect to identical normal forms both ways: three distinct generators
/// `gk gj gi` (`k > j > i`), a power and a smaller generator `gj^pj gi` (`j > i`), a larger
/// generator and a power `gk gj^pj` (`k > j`), and a power and itself `gi^(pi + 1)`.
/// Returns the first failing overlap, in that order.
pub fn verify_consistency(pres: &Presentation) -> (r: Result<(), ConsistencyError>)
    requires
        pres.collectable(),
        pres.relations_normal(),
    ensures
        r is Ok <==> consistent(*pres),
        r matches Err(e) ==> first_failure(*pres, e),
        (r is Ok) == ((forall|k: nat, j: nat, i: nat|
            #![trigger pres.cm(k as int, j as int), pres.cm(j as int, i as int)]
            i < j < k < pres.n() ==> normal_form(
                    *pres,
                    seq![Term { gen_index: j as usize, exponent: 1 }, Term { gen_index: k as usize, exponent: 1 }] + pres.cm(k as int, j as int) + seq![Term { gen_index: i as usize, exponent: 1 }],
                ) == normal_form(
                    *pres,
                    seq![Term { gen_index: k as usize, exponent: 1 }, Term { gen_index: i as usize, exponent: 1 }, Term { gen_index: j as usize, exponent: 1 }] + pres.cm(j as int, i as int),
                )) && (forall|j: nat, i: nat|
            #![trigger pres.pw(j as int), pres.cm(j as int, i as int)]
            i < j < pres.n() ==> normal_form(*pres, pres.pw(j as int) + seq![Term { gen_index: i as usize, exponent: 1 }]) == normal_form(
                    *pres,
                    seq![Term { gen_index: j as usize, exponent: ((pres.ro()[j as int] - 1) as nat) as u32 }, Term { gen_index: i as usize, exponent: 1 }, Term { gen_index: j as usize, exponent: 1 }] + pres.cm(j as int, i as int),
                )) && (forall|k: nat, j: nat|
            #![trigger pres.cm(k as int, j as int), pres.pw(j as int)]
            j < k < pres.n() ==> normal_form(
                    *pres,
                    seq![Term { gen_index: j as usize, exponent: 1 }, Term { gen_index: k as usize, exponent: 1 }] + pres.cm(k as int, j as int) + seq![Term { gen_index: j as usize, exponent: ((pres.ro()[j as int] - 1) as nat) as u32 }],
                ) == normal_form(*pres, seq![Term { gen_index: k as usize, exponent: 1 }] + pres.pw(j as int))) && (forall|i: nat|
            #![trigger pres.pw(i as int)]
            i < pres.n() ==> normal_form(*pres, pres.pw(i as int) + seq![Term { gen_index: i as usize, exponent: 1 }]) == normal_form(*pres, seq![Term { gen_index: i as usize, exponent: 1 }] + pres.pw(i as int)))),
{
    proof {
        lemma_consistent_overlaps(*pres);
    }
    let ghost pv = *pres;
    let n = pres.num_gens();

    // 1. Overlap of three distinct generators (k > j > i)
    let mut k: usize = 2;
    while k < n
        invariant
            2 <= k,
            n == pv.n(),
            pv == *pres,
            pres.collectable(),
            pres.relations_normal(),
            three_generators_before(pv, k as nat, 0, 0),
        decreases n - k,
    {
        let mut j: usize = 1;
        while j < k
            invariant
                1 <= j <= k < n,
                n == pv.n(),
                pv == *pres,
                pres.collectable(),
                pres.relations_normal(),
                three_generators_before(pv, k as nat, j as nat, 0),
            decreases k - j,
        {
            let mut i: usize = 0;
            while i < j
                invariant
                    i <= j < k < n,
                    n == pv.n(),
                    pv == *pres,
                    pres.collectable(),
                    pres.relations_normal(),
                    three_generators_before(pv, k as nat, j as nat, i as nat),
                decreases j - i,
            {
                if !three_generators_overlap(pres, k, j, i) {
                    return Err(ConsistencyError::ThreeGenerators { k, j, i });
                }
                i = i + 1;
            }
            j = j + 1;
        }
        k = k + 1;
    }
    assert(three_generators_before(pv, n as nat, 0, 0));

    // 2. Overlap of a power and a smaller generator (j > i)
    let mut j: usize = 1;
    while j < n
        invariant
            1 <= j,
            n == pv.n(),
            pv == *pres,
            pres.collectable(),
            pres.relations_normal(),
            three_generators_before(pv, n as nat, 0, 0),
            power_and_smaller_before(pv, j as nat, 0),
        decreases n - j,
    {
        let mut i: usize = 0;
        while i < j
            invariant
                i <= j < n,
                n == pv.n(),
                pv == *pres,
                pres.collectable(),
                pres.relations_normal(),
                three_generators_before(pv, n as nat, 0, 0),
                power_and_smaller_before(pv, j as nat, i as nat),
            decreases j - i,
        {
            if !power_and_smaller_overlap(pres, j, i) {
                return Err(ConsistencyError::PowerAndSmallerGenerator { j, i });
            }
            i = i + 1;
        }
        j = j + 1;
    }
    assert(power_and_smaller_before(pv, n as nat, 0));

    // 3. Overlap of a larger generator and a power (k > j)
    let mut k: usize = 1;
    while k < n
        invariant
            1 <= k,
            n == pv.n(),
            pv == *pres,
            pres.collectable(),
            pres.relations_normal(),
            three_generators_before(pv, n as nat, 0, 0),
            power_and_smaller_before(pv, n as nat, 0),
            larger_and_power_before(pv, k as nat, 0),
        decreases n - k,
    {
        let mut j: usize = 0;
        while j < k
            invariant
                j <= k < n,
                n == pv.n(),
                pv == *pres,
                pres.collectable(),
                pres.relations_normal(),
                three_generators_before(pv, n as nat, 0, 0),
                power_and_smaller_before(pv, n as nat, 0),
                larger_and_power_before(pv, k as nat, j as nat),
            decreases k - j,
        {
            if !larger_and_power_overlap(pres, k, j) {
                return Err(ConsistencyError::LargerGeneratorAndPower { k, j });
            }
            j = j + 1;
        }
        k = k + 1;
    }
    assert(larger_and_power_before(pv, n as nat, 0));

    // 4. Overlap of a power and itself (for all i)
    let mut i: usize = 0;
    while i < n
        invariant
            i <= n,
            n == pv.n(),
            pv == *pres,
            pres.collectable(),
            pres.relations_normal(),
            three_generators_before(pv, n as nat, 0, 0),
            power_and_smaller_before(pv, n as nat, 0),
            larger_and_power_before(pv, n as nat, 0),
            power_and_itself_before(pv, i as nat),
        decreases n - i,
    {
        if !power_and_itself_overlap(pres, i) {
            return Err(ConsistencyError::PowerAndItself { i });
        }
        i = i + 1;
    }
    Ok(())
}

} // verus!
