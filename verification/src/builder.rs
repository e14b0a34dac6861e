//! Validated construction of PC presentations.
use vstd::prelude::*;

use crate::presentation::{
    lemma_commutator_index_bounds, lemma_triangle, spec_commutator_index, spec_num_commutators,
    Presentation,
};
use crate::text::{decimal, push_decimal, push_str};
use crate::util::ntheory::{is_prime, spec_is_prime};
use crate::word::{Term, Word};

verus! {

/// Errors that can occur during the construction of a [presentation](Presentation) via [`Builder`].
#[derive(Debug, Clone, PartialEq, Eq, Structural)]
pub enum BuilderError {
    /// The specified relative order is not a prime number (`order >= 2`).
    InvalidRelativeOrder { order: u32 },
    /// The specified generator index does not exist in this presentation.
    GeneratorOutOfBounds { index: usize, max: usize },
    /// Violates the PC condition: relations defining `gi` or `[gi, gj]` must only contain generators `gk` where `k > i` (for powers) or `k > j` (for commutators).
    InvalidPcCondition { relation_for: usize, invalid_generator: usize },
    /// Attempted to define a commutator `[gi, gj]` where `i <= j`.
    InvalidCommutatorPair { i: usize, j: usize },
}

impl BuilderError {
    /// The human-readable message of the error.
    pub open spec fn spec_text(self) -> Seq<char> {
        match self {
            BuilderError::InvalidRelativeOrder { order } => "Invalid relative order "@ + decimal(
                order as nat,
            ) + ": must be a prime number >= 2"@,
            BuilderError::GeneratorOutOfBounds { index, max } => "Generator index "@ + decimal(
                index as nat,
            ) + " is out of bounds (maximum valid index is "@ + decimal(max as nat) + ")"@,
            BuilderError::InvalidPcCondition { relation_for, invalid_generator } =>
                "PC condition violated: relation for g"@ + decimal(relation_for as nat)
                + " contains generator g"@ + decimal(invalid_generator as nat)
                + " (must be strictly greater)"@,
            BuilderError::InvalidCommutatorPair { i, j } => "Invalid commutator pair [g"@ + decimal(
                i as nat,
            ) + ", g"@ + decimal(j as nat) + "]: requires i > j"@,
        }
    }

    /// Returns the human-readable message of the error.
    pub fn to_string(&self) -> (s: String)
        ensures
            s@ == self.spec_text(),
    {
        let mut s = String::new();
        match self {
            BuilderError::InvalidRelativeOrder { order } => {
                push_str(&mut s, "Invalid relative order ");
                push_decimal(&mut s, *order as u64);
                push_str(&mut s, ": must be a prime number >= 2");
            },
            BuilderError::GeneratorOutOfBounds { index, max } => {
                push_str(&mut s, "Generator index ");
                push_decimal(&mut s, *index as u64);
                push_str(&mut s, " is out of bounds (maximum valid index is ");
                push_decimal(&mut s, *max as u64);
                push_str(&mut s, ")");
            },
            BuilderError::InvalidPcCondition { relation_for, invalid_generator } => {
                push_str(&mut s, "PC condition violated: relation for g");
                push_decimal(&mut s, *relation_for as u64);
                push_str(&mut s, " contains generator g");
                push_decimal(&mut s, *invalid_generator as u64);
                push_str(&mut s, " (must be strictly greater)");
            },
            BuilderError::InvalidCommutatorPair { i, j } => {
                push_str(&mut s, "Invalid commutator pair [g");
                push_decimal(&mut s, *i as u64);
                push_str(&mut s, ", g");
                push_decimal(&mut s, *j as u64);
                push_str(&mut s, "]: requires i > j");
            },
        }
        assert(s@ =~= self.spec_text());
        s
    }
}

/// The first violation of the PC condition in the terms `ts` of a relation for generator
/// `relation_for` in a presentation with `n` generators, if any.
pub open spec fn word_violation(ts: Seq<Term>, n: nat, relation_for: nat) -> Option<BuilderError>
    decreases ts.len(),
{
    if ts.len() == 0 {
        None
    } else {
        match word_violation(ts.drop_last(), n, relation_for) {
            Some(e) => Some(e),
            None => {
                let t = ts.last();
                if t.gen_index >= n {
                    Some(
                        BuilderError::GeneratorOutOfBounds {
                            index: t.gen_index,
                            max: if n >= 1 { (n - 1) as usize } else { 0 },
                        },
                    )
                } else if t.gen_index <= relation_for {
                    Some(
                        BuilderError::InvalidPcCondition {
                            relation_for: relation_for as usize,
                            invalid_generator: t.gen_index,
                        },
                    )
                } else {
                    None
                }
            },
        }
    }
}

/// Without violations, every term lies strictly between `relation_for` and `n`.
pub proof fn lemma_no_violation(ts: Seq<Term>, n: nat, relation_for: nat)
    requires
        word_violation(ts, n, relation_for) is None,
    ensures
        forall|k: int| 0 <= k < ts.len() ==> relation_for < (#[trigger] ts[k]).gen_index < n,
    decreases ts.len(),
{
    if ts.len() > 0 {
        lemma_no_violation(ts.drop_last(), n, relation_for);
        assert forall|k: int| 0 <= k < ts.len() implies relation_for < (#[trigger] ts[k]).gen_index < n by {
            if k < ts.len() - 1 {
                assert(ts[k] == ts.drop_last()[k]);
            }
        }
    }
}

/// A word whose terms all lie strictly between `relation_for` and `n` has no violation.
pub proof fn lemma_valid_word(ts: Seq<Term>, n: nat, relation_for: nat)
    requires
        forall|k: int| 0 <= k < ts.len() ==> relation_for < (#[trigger] ts[k]).gen_index < n,
    ensures
        word_violation(ts, n, relation_for) is None,
    decreases ts.len(),
{
    if ts.len() > 0 {
        assert forall|k: int| 0 <= k < ts.drop_last().len() implies relation_for < (
        #[trigger] ts.drop_last()[k]).gen_index < n by {
            assert(ts.drop_last()[k] == ts[k]);
        }
        lemma_valid_word(ts.drop_last(), n, relation_for);
        assert(ts.last() == ts[ts.len() - 1]);
    }
}

/// The index of the first relative order that is not prime, if any.
pub open spec fn first_non_prime(ro: Seq<u32>) -> Option<u32>
    decreases ro.len(),
{
    if ro.len() == 0 {
        None
    } else {
        match first_non_prime(ro.drop_last()) {
            Some(p) => Some(p),
            None => if spec_is_prime(ro.last() as int) {
                None
            } else {
                Some(ro.last())
            },
        }
    }
}

/// Without a non-prime entry, every relative order is prime.
proof fn lemma_all_prime(ro: Seq<u32>)
    requires
        first_non_prime(ro) is None,
    ensures
        forall|k: int| 0 <= k < ro.len() ==> spec_is_prime(#[trigger] ro[k] as int),
    decreases ro.len(),
{
    if ro.len() > 0 {
        lemma_all_prime(ro.drop_last());
        assert forall|k: int| 0 <= k < ro.len() implies spec_is_prime(#[trigger] ro[k] as int) by {
            if k < ro.len() - 1 {
                assert(ro[k] == ro.drop_last()[k]);
            }
        }
    }
}

/// Relative orders that are all prime have no first non-prime.
pub proof fn lemma_primes_accepted(ro: Seq<u32>)
    requires
        forall|k: int| 0 <= k < ro.len() ==> spec_is_prime(#[trigger] ro[k] as int),
    ensures
        first_non_prime(ro) is None,
    decreases ro.len(),
{
    if ro.len() > 0 {
        assert forall|k: int| 0 <= k < ro.drop_last().len() implies spec_is_prime(
            #[trigger] ro.drop_last()[k] as int,
        ) by {
            assert(ro.drop_last()[k] == ro[k]);
        }
        lemma_primes_accepted(ro.drop_last());
        assert(spec_is_prime(ro[ro.len() - 1] as int));
    }
}

/// Returns `k` identity words.
fn identity_words(k: usize) -> (ws: Vec<Word>)
    ensures
        ws@.len() == k,
        forall|i: int| 0 <= i < k ==> (#[trigger] ws@[i]).terms@.len() == 0,
{
    let mut ws: Vec<Word> = Vec::new();
    let mut i: usize = 0;
    while i < k
        invariant
            i <= k,
            ws@.len() == i,
            forall|j: int| 0 <= j < i ==> (#[trigger] ws@[j]).terms@.len() == 0,
        decreases k - i,
    {
        ws.push(Word::identity());
        i = i + 1;
    }
    ws
}

/// A builder to construct a [PC presentation](Presentation).
///
/// Unspecified power and commutator relations are implicitly trivial (the identity [word](Word)).
#[derive(Debug, Clone, PartialEq, Eq)]
pub struct Builder {
    relative_orders: Vec<u32>,
    powers: Vec<Word>,
    commutators: Vec<Word>,
}

impl Builder {
    /// The relative orders.
    pub closed spec fn ro(&self) -> Seq<u32> {
        self.relative_orders@
    }

    /// The number of generators.
    pub open spec fn n(&self) -> nat {
        self.ro().len()
    }

    /// The terms of the power relation word for `g_i`.
    pub closed spec fn pw(&self, i: int) -> Seq<Term> {
        self.powers@[i].terms@
    }

    /// The terms of the commutator relation word for `[g_i, g_j]`.
    pub closed spec fn cm(&self, i: int, j: int) -> Seq<Term> {
        self.commutators@[spec_commutator_index(i as nat, j as nat) as int].terms@
    }

    /// Table shapes agree, all relative orders are prime and every stored word satisfies the PC condition.
    pub closed spec fn wf(&self) -> bool {
        &&& self.powers@.len() == self.relative_orders@.len()
        &&& self.commutators@.len() == spec_num_commutators(self.relative_orders@.len() as nat)
        &&& self.relative_orders@.len() * (self.relative_orders@.len() - 1) <= usize::MAX
        &&& forall|i: int| 0 <= i < self.n() ==> spec_is_prime(#[trigger] self.ro()[i] as int)
        &&& forall|i: int, k: int|
            0 <= i < self.n() && 0 <= k < self.pw(i).len() ==> i < (#[trigger] self.pw(i)[k]).gen_index
                < self.n()
        &&& forall|i: int, j: int, k: int|
            0 <= j < i < self.n() && 0 <= k < self.cm(i, j).len() ==> j < (#[trigger] self.cm(
                i,
                j,
            )[k]).gen_index < self.n()
    }

    /// Starts building a presentation with the given prime relative orders.
    ///
    /// Returns [`BuilderError::InvalidRelativeOrder`] for the first order that is not a prime number (`>= 2`).
    pub fn new(relative_orders: Vec<u32>) -> (res: Result<Self, BuilderError>)
        requires
            relative_orders@.len() * (relative_orders@.len() - 1) <= usize::MAX,
        ensures
            first_non_prime(relative_orders@) is Some <==> res is Err,
            res matches Err(e) ==> (e == (BuilderError::InvalidRelativeOrder {
                order: first_non_prime(relative_orders@)->0,
            })),
            res matches Ok(b) ==> ({
                &&& b.wf()
                &&& b.ro() == relative_orders@
                &&& forall|i: int| 0 <= i < b.n() ==> (#[trigger] b.pw(i)).len() == 0
                &&& forall|i: int, j: int| 0 <= j < i < b.n() ==> (#[trigger] b.cm(i, j)).len() == 0
            }),
    {
        let mut k: usize = 0;
        while k < relative_orders.len()
            invariant
                k <= relative_orders@.len(),
                first_non_prime(relative_orders@.take(k as int)) is None,
            decreases relative_orders@.len() - k,
        {
            let order = relative_orders[k];
            assert(relative_orders@.take(k as int + 1).drop_last() =~= relative_orders@.take(k as int));
            if !is_prime(order) {
                proof {
                    lemma_first_non_prime_prefix(relative_orders@, k as int + 1);
                }
                return Err(BuilderError::InvalidRelativeOrder { order });
            }
            k = k + 1;
        }
        assert(relative_orders@.take(k as int) =~= relative_orders@);
        proof {
            lemma_all_prime(relative_orders@);
        }
        let num_gens = relative_orders.len();
        let num_comms = Presentation::num_commutators(num_gens);
        let powers = identity_words(num_gens);
        let commutators = identity_words(num_comms);
        let b = Builder { relative_orders, powers, commutators };
        proof {
            assert forall|i: int, j: int| 0 <= j < i < b.n() implies (#[trigger] b.cm(i, j)).len() == 0 by {
                lemma_commutator_index_bounds(i as nat, j as nat, b.n());
            }
        }
        Ok(b)
    }

    /// Returns the number of generators in the presentation being built.
    pub fn num_gens(&self) -> (n: usize)
        ensures
            n == self.n(),
    {
        self.relative_orders.len()
    }

    /// Checks the PC condition of `word` for a relation defining generator `relation_for`.
    fn validate_word(&self, relation_for: usize, word: &Word) -> (res: Result<(), BuilderError>)
        ensures
            res matches Err(e) ==> (word_violation(word.terms@, self.n(), relation_for as nat) == Some(
                e,
            )),
            res is Ok ==> word_violation(word.terms@, self.n(), relation_for as nat) is None,
    {
        let num_gens = self.num_gens();
        let max: usize = if num_gens >= 1 { num_gens - 1 } else { 0 };
        let mut k: usize = 0;
        while k < word.terms.len()
            invariant
                num_gens == self.n(),
                max == (if num_gens >= 1 { (num_gens - 1) as usize } else { 0 }),
                k <= word.terms@.len(),
                word_violation(word.terms@.take(k as int), self.n(), relation_for as nat) is None,
            decreases word.terms@.len() - k,
        {
            let term = word.terms[k];
            assert(word.terms@.take(k as int + 1).drop_last() =~= word.terms@.take(k as int));
            if term.gen_index >= num_gens {
                proof {
                    lemma_violation_prefix(word.terms@, k as int + 1, self.n(), relation_for as nat);
                }
                return Err(BuilderError::GeneratorOutOfBounds { index: term.gen_index, max });
            }
            if term.gen_index <= relation_for {
                proof {
                    lemma_violation_prefix(word.terms@, k as int + 1, self.n(), relation_for as nat);
                }
                return Err(
                    BuilderError::InvalidPcCondition {
                        relation_for,
                        invalid_generator: term.gen_index,
                    },
                );
            }
            k = k + 1;
        }
        assert(word.terms@.take(k as int) =~= word.terms@);
        Ok(())
    }

    /// The out-of-bounds error reported for generator index `index`.
    pub open spec fn out_of_bounds(&self, index: usize) -> BuilderError {
        BuilderError::GeneratorOutOfBounds {
            index,
            max: if self.n() >= 1 { (self.n() - 1) as usize } else { 0 },
        }
    }

    /// `b` is `self` with the power relation of `g_i` replaced by `w`.
    pub open spec fn with_power(&self, b: Builder, i: int, w: Seq<Term>) -> bool {
        &&& b.wf()
        &&& b.ro() == self.ro()
        &&& b.pw(i) == w
        &&& forall|k: int| 0 <= k < self.n() && k != i ==> #[trigger] b.pw(k) == self.pw(k)
        &&& forall|a: int, c: int| 0 <= c < a < self.n() ==> #[trigger] b.cm(a, c) == self.cm(a, c)
    }

    /// `b` is `self` with the commutator relation of `[g_i, g_j]` replaced by `w`.
    pub open spec fn with_commutator(&self, b: Builder, i: int, j: int, w: Seq<Term>) -> bool {
        &&& b.wf()
        &&& b.ro() == self.ro()
        &&& b.cm(i, j) == w
        &&& forall|k: int| 0 <= k < self.n() ==> #[trigger] b.pw(k) == self.pw(k)
        &&& forall|a: int, c: int|
            0 <= c < a < self.n() && (a != i || c != j) ==> #[trigger] b.cm(a, c) == self.cm(a, c)
    }

    /// Adds or overwrites a power relation: `gi^pi = word`.
    ///
    /// Returns [`BuilderError::GeneratorOutOfBounds`] if `i >= num_gens` or if `word` contains out-of-bounds
    /// generators, and [`BuilderError::InvalidPcCondition`] if `word` contains generators `<= i`.
    pub fn add_power(self, i: usize, word: Word) -> (res: Result<Self, BuilderError>)
        requires
            self.wf(),
        ensures
            i >= self.n() ==> res == Err::<Builder, BuilderError>(self.out_of_bounds(i)),
            i < self.n() && word_violation(word.terms@, self.n(), i as nat) is Some ==> res == Err::<
                Builder,
                BuilderError,
            >(word_violation(word.terms@, self.n(), i as nat)->0),
            i < self.n() && word_violation(word.terms@, self.n(), i as nat) is None ==> (res matches Ok(
                b,
            ) && self.with_power(b, i as int, word.terms@)),
    {
        let num_gens = self.num_gens();
        if i >= num_gens {
            let max: usize = if num_gens >= 1 { num_gens - 1 } else { 0 };
            return Err(BuilderError::GeneratorOutOfBounds { index: i, max });
        }
        match self.validate_word(i, &word) {
            Err(e) => {
                return Err(e);
            },
            Ok(()) => {},
        }
        proof {
            lemma_no_violation(word.terms@, self.n(), i as nat);
        }
        let Builder { relative_orders, mut powers, commutators } = self;
        let ghost old_powers = powers@;
        powers.set(i, word);
        let b = Builder { relative_orders, powers, commutators };
        proof {
            assert forall|k: int| 0 <= k < b.n() && k != i implies #[trigger] b.pw(k) == self.pw(k) by {
                assert(b.powers@[k] == old_powers[k]);
            }
            assert forall|a: int, k: int|
                0 <= a < b.n() && 0 <= k < b.pw(a).len() implies a < (#[trigger] b.pw(a)[k]).gen_index
                < b.n() by {
                if a != i {
                    assert(b.pw(a) == self.pw(a));
                }
            }
            assert forall|a: int, c: int, k: int|
                0 <= c < a < b.n() && 0 <= k < b.cm(a, c).len() implies c < (#[trigger] b.cm(
                a,
                c,
            )[k]).gen_index < b.n() by {
                assert(b.cm(a, c) == self.cm(a, c));
            }
            assert forall|a: int| 0 <= a < b.n() implies spec_is_prime(#[trigger] b.ro()[a] as int) by {
                assert(b.ro()[a] == self.ro()[a]);
            }
            assert(b.wf());
        }
        Ok(b)
    }

    /// Adds or overwrites a commutator relation: `[gi, gj] = word` for `i > j`.
    ///
    /// Returns [`BuilderError::GeneratorOutOfBounds`] if `i >= num_gens`, `j >= num_gens`, or if `word`
    /// contains out-of-bounds generators, [`BuilderError::InvalidCommutatorPair`] if `i <= j`, and
    /// [`BuilderError::InvalidPcCondition`] if `word` contains generators `<= j`.
    pub fn add_commutator(self, i: usize, j: usize, word: Word) -> (res: Result<Self, BuilderError>)
        requires
            self.wf(),
        ensures
            i >= self.n() ==> res == Err::<Builder, BuilderError>(self.out_of_bounds(i)),
            i < self.n() && j >= self.n() ==> res == Err::<Builder, BuilderError>(
                self.out_of_bounds(j),
            ),
            i < self.n() && j < self.n() && i <= j ==> res == Err::<Builder, BuilderError>(
                BuilderError::InvalidCommutatorPair { i, j },
            ),
            j < i < self.n() && word_violation(word.terms@, self.n(), j as nat) is Some ==> res
                == Err::<Builder, BuilderError>(word_violation(word.terms@, self.n(), j as nat)->0),
            j < i < self.n() && word_violation(word.terms@, self.n(), j as nat) is None ==> (res matches Ok(
                b,
            ) && self.with_commutator(b, i as int, j as int, word.terms@)),
    {
        let num_gens = self.num_gens();
        let max: usize = if num_gens >= 1 { num_gens - 1 } else { 0 };
        if i >= num_gens {
            return Err(BuilderError::GeneratorOutOfBounds { index: i, max });
        }
        if j >= num_gens {
            return Err(BuilderError::GeneratorOutOfBounds { index: j, max });
        }
        if i <= j {
            return Err(BuilderError::InvalidCommutatorPair { i, j });
        }
        match self.validate_word(j, &word) {
            Err(e) => {
                return Err(e);
            },
            Ok(()) => {},
        }
        proof {
            lemma_no_violation(word.terms@, self.n(), j as nat);
            lemma_commutator_index_bounds(i as nat, j as nat, self.n());
            lemma_triangle(i as nat);
            assert(i * (i - 1) <= self.n() * (self.n() - 1)) by (nonlinear_arith)
                requires
                    i < self.n(),
                    i >= 1,
            ;
        }
        let Builder { relative_orders, powers, mut commutators } = self;
        let ghost old_comms = commutators@;
        let len = commutators.len();
        assert(i * (i - 1) / 2 + j < len);
        let flat_idx = Presentation::commutator_index(i, j);
        commutators.set(flat_idx, word);
        let b = Builder { relative_orders, powers, commutators };
        proof {
            assert forall|a: int, c: int|
                0 <= c < a < self.n() && (a != i || c != j) implies #[trigger] b.cm(a, c) == self.cm(
                a,
                c,
            ) by {
                lemma_commutator_index_injective(a as nat, c as nat, i as nat, j as nat);
                lemma_commutator_index_bounds(a as nat, c as nat, self.n());
            }
            assert forall|a: int, c: int, k: int|
                0 <= c < a < b.n() && 0 <= k < b.cm(a, c).len() implies c < (#[trigger] b.cm(
                a,
                c,
            )[k]).gen_index < b.n() by {
                if a != i || c != j {
                    lemma_commutator_index_injective(a as nat, c as nat, i as nat, j as nat);
                    lemma_commutator_index_bounds(a as nat, c as nat, self.n());
                    assert(b.cm(a, c) == self.cm(a, c));
                }
            }
            assert forall|a: int, k: int|
                0 <= a < b.n() && 0 <= k < b.pw(a).len() implies a < (#[trigger] b.pw(a)[k]).gen_index
                < b.n() by {
                assert(b.pw(a) == self.pw(a));
            }
            assert forall|a: int| 0 <= a < b.n() implies spec_is_prime(#[trigger] b.ro()[a] as int) by {
                assert(b.ro()[a] == self.ro()[a]);
            }
            assert(b.wf());
        }
        Ok(b)
    }

    /// Finalizes the presentation, returning an immutable [`Presentation`].
    pub fn build(self) -> (pres: Presentation)
        requires
            self.wf(),
        ensures
            pres.wf(),
            pres.is_pc(),
            pres.ro() == self.ro(),
            forall|i: int| 0 <= i < self.n() ==> #[trigger] pres.pw(i) == self.pw(i),
            forall|i: int, j: int| 0 <= j < i < self.n() ==> #[trigger] pres.cm(i, j) == self.cm(i, j),
    {
        let ghost me = self;
        let Builder { relative_orders, powers, commutators } = self;
        let pres = Presentation::new(relative_orders, powers, commutators);
        proof {
            assert forall|i: int| 0 <= i < pres.n() implies spec_is_prime(#[trigger] pres.ro()[i] as int) by {
                assert(pres.ro()[i] == me.ro()[i]);
            }
            assert forall|i: int, k: int|
                0 <= i < pres.n() && 0 <= k < pres.pw(i).len() implies i < (#[trigger] pres.pw(
                i,
            )[k]).gen_index < pres.n() by {
                assert(pres.pw(i) == me.pw(i));
            }
            assert forall|i: int, j: int, k: int|
                0 <= j < i < pres.n() && 0 <= k < pres.cm(i, j).len() implies j < (#[trigger] pres.cm(
                i,
                j,
            )[k]).gen_index < pres.n() by {
                assert(pres.cm(i, j) == me.cm(i, j));
            }
        }
        pres
    }
}

/// A non-prime entry found within a prefix is the first non-prime entry overall.
proof fn lemma_first_non_prime_prefix(ro: Seq<u32>, k: int)
    requires
        0 < k <= ro.len(),
        first_non_prime(ro.take(k - 1)) is None,
        !spec_is_prime(ro[k - 1] as int),
    ensures
        first_non_prime(ro) == Some(ro[k - 1]),
    decreases ro.len(),
{
    assert(ro.take(k).drop_last() =~= ro.take(k - 1));
    if k < ro.len() {
        assert(ro.drop_last().take(k) =~= ro.take(k));
        assert(ro.drop_last().take(k - 1) =~= ro.take(k - 1));
        lemma_first_non_prime_prefix(ro.drop_last(), k);
    } else {
        assert(ro.take(k) =~= ro);
        assert(ro.drop_last() =~= ro.take(k - 1));
    }
}

/// A violation found within a prefix of the terms is the first violation overall.
proof fn lemma_violation_prefix(ts: Seq<Term>, k: int, n: nat, r: nat)
    requires
        0 < k <= ts.len(),
        word_violation(ts.take(k - 1), n, r) is None,
        word_violation(ts.take(k), n, r) is Some,
    ensures
        word_violation(ts, n, r) == word_violation(ts.take(k), n, r),
    decreases ts.len(),
{
    if k < ts.len() {
        assert(ts.drop_last().take(k) =~= ts.take(k));
        assert(ts.drop_last().take(k - 1) =~= ts.take(k - 1));
        lemma_violation_prefix(ts.drop_last(), k, n, r);
    } else {
        assert(ts.take(k) =~= ts);
    }
}

/// Distinct pairs `(a, c)` and `(i, j)` with `c < a` and `j < i` have distinct flat indices.
pub proof fn lemma_commutator_index_injective(a: nat, c: nat, i: nat, j: nat)
    requires
        c < a,
        j < i,
        a != i || c != j,
    ensures
        spec_commutator_index(a, c) != spec_commutator_index(i, j),
{
    if a == i {
    } else if a < i {
        lemma_commutator_index_bounds(a, c, i);
        lemma_triangle(i);
    } else {
        lemma_commutator_index_bounds(i, j, a);
        lemma_triangle(a);
    }
}

} // verus!
