//! Generator-exponent terms and normal form words of a PC presentation.
use vstd::prelude::*;
use vstd::std_specs::convert::FromSpecImpl;

use crate::text::{decimal, push_decimal, push_str};

verus! {

/// Represents a single generator-exponent term `gi^e` of a normal form [word](Word) implicitly associated to some [PC presentation](crate::Presentation).
///
/// In a normal form word `i` is a valid generator index and `0 < e < p_i`; the type itself does not enforce this.
#[derive(Debug, Clone, Copy, PartialEq, Eq, Hash, Structural)]
pub struct Term {
    /// The generator index `i`.
    pub gen_index: usize,
    /// The exponent `e`.
    pub exponent: u32,
}

impl Term {
    /// Creates a new term with the given generator index and exponent.
    pub fn new(gen_index: usize, exponent: u32) -> (t: Self)
        ensures
            t.gen_index == gen_index,
            t.exponent == exponent,
    {
        Term { gen_index, exponent }
    }

    /// The textual form `g{i}` or `g{i}^{e}` of a term.
    pub open spec fn spec_text(self) -> Seq<char> {
        seq!['g'] + decimal(self.gen_index as nat) + if self.exponent == 1 {
            Seq::<char>::empty()
        } else {
            seq!['^'] + decimal(self.exponent as nat)
        }
    }

    /// Appends the textual form of this term to `s`.
    pub fn write_to(&self, s: &mut String)
        ensures
            final(s)@ == old(s)@ + self.spec_text(),
    {
        proof {
            reveal_strlit("g");
            reveal_strlit("^");
        }
        push_str(s, "g");
        push_decimal(s, self.gen_index as u64);
        if self.exponent != 1 {
            push_str(s, "^");
            push_decimal(s, self.exponent as u64);
        }
        assert(s@ =~= old(s)@ + self.spec_text());
    }

    /// Returns the textual form `g{i}` or `g{i}^{e}` of this term.
    pub fn to_string(&self) -> (s: String)
        ensures
            s@ == self.spec_text(),
    {
        let mut s = String::new();
        self.write_to(&mut s);
        assert(s@ =~= self.spec_text());
        s
    }
}

impl From<(usize, u32)> for Term {
    fn from(pair: (usize, u32)) -> (t: Self) {
        Term { gen_index: pair.0, exponent: pair.1 }
    }
}

impl FromSpecImpl<(usize, u32)> for Term {
    open spec fn obeys_from_spec() -> bool {
        true
    }

    open spec fn from_spec(v: (usize, u32)) -> Term {
        Term { gen_index: v.0, exponent: v.1 }
    }
}

impl From<Term> for (usize, u32) {
    fn from(term: Term) -> (pair: Self) {
        (term.gen_index, term.exponent)
    }
}

impl FromSpecImpl<Term> for (usize, u32) {
    open spec fn obeys_from_spec() -> bool {
        true
    }

    open spec fn from_spec(v: Term) -> (usize, u32) {
        (v.gen_index, v.exponent)
    }
}

/// Generator indices of the terms are strictly increasing.
pub open spec fn strictly_increasing(ts: Seq<Term>) -> bool {
    forall|i: int, j: int| 0 <= i < j < ts.len() ==> ts[i].gen_index < ts[j].gen_index
}

/// The terms form a normal form word for the relative orders `ro`: strictly increasing generator
/// indices, each a valid index, with exponents `0 < e < p_i`.
pub open spec fn is_normal_terms(ts: Seq<Term>, ro: Seq<u32>) -> bool {
    &&& strictly_increasing(ts)
    &&& forall|i: int|
        0 <= i < ts.len() ==> (#[trigger] ts[i]).gen_index < ro.len() && 0 < ts[i].exponent
            < ro[ts[i].gen_index as int]
}

/// The textual form of a non-empty sequence of terms, separated by single spaces.
pub open spec fn terms_text(ts: Seq<Term>) -> Seq<char>
    decreases ts.len(),
{
    if ts.len() <= 1 {
        if ts.len() == 0 {
            Seq::<char>::empty()
        } else {
            ts[0].spec_text()
        }
    } else {
        terms_text(ts.drop_last()) + seq![' '] + ts.last().spec_text()
    }
}

/// The textual form of a word with the given terms: `1` for the identity.
pub open spec fn word_text(ts: Seq<Term>) -> Seq<char> {
    if ts.len() == 0 {
        seq!['1']
    } else {
        terms_text(ts)
    }
}

/// Represents a word in normal form associated with a [PC presentation](crate::Presentation).
/// An empty sequence of [terms](Term) represents the group identity (`1`).
///
/// In a normal form word the generator indices are strictly increasing: `i1 < i2 < ... < ik`.
#[derive(Debug, Clone, PartialEq, Eq, Hash)]
pub struct Word {
    /// A vector of terms with strictly increasing `gen_index`.
    pub terms: Vec<Term>,
}

impl Word {
    /// Creates an empty normal form word representing the group identity.
    pub fn identity() -> (w: Self)
        ensures
            w.terms@ == Seq::<Term>::empty(),
    {
        Word { terms: Vec::new() }
    }

    /// Creates a new `Word` from a vector of terms.
    pub fn new(terms: Vec<Term>) -> (w: Self)
        ensures
            w.terms@ == terms@,
    {
        Word { terms }
    }

    /// Creates a `Word` collecting the given terms in order.
    pub fn from_iter(terms: Vec<Term>) -> (w: Self)
        ensures
            w.terms@ == terms@,
    {
        Word { terms }
    }

    /// Creates a `Word` consisting of a single term `gi^e`.
    ///
    /// If `exponent == 0`, returns the identity word.
    pub fn from_term(gen_index: usize, exponent: u32) -> (w: Self)
        ensures
            exponent == 0 ==> w.terms@ == Seq::<Term>::empty(),
            exponent != 0 ==> w.terms@ == seq![Term { gen_index, exponent }],
    {
        if exponent == 0 {
            Self::identity()
        } else {
            let mut terms = Vec::new();
            terms.push(Term::new(gen_index, exponent));
            assert(terms@ =~= seq![Term { gen_index, exponent }]);
            Word { terms }
        }
    }

    /// Returns a copy of this word with the same terms.
    pub fn duplicate(&self) -> (w: Self)
        ensures
            w.terms@ == self.terms@,
    {
        let terms = self.terms.clone();
        assert(terms@ =~= self.terms@);
        Word { terms }
    }

    /// Returns `true` if this word represents the group identity.
    pub fn is_identity(&self) -> (b: bool)
        ensures
            b == (self.terms@.len() == 0),
    {
        self.terms.len() == 0
    }

    /// Returns `true` if the word has no terms (equivalent to [`is_identity`](Self::is_identity)).
    pub fn is_empty(&self) -> (b: bool)
        ensures
            b == (self.terms@.len() == 0),
    {
        self.terms.len() == 0
    }

    /// Returns the number of terms in this word.
    pub fn len(&self) -> (n: usize)
        ensures
            n == self.terms@.len(),
    {
        self.terms.len()
    }

    /// Returns a slice over the terms of this word.
    pub fn terms(&self) -> (ts: &[Term])
        ensures
            ts@ == self.terms@,
    {
        self.terms.as_slice()
    }

    /// Returns an iterator over references to the terms of this word.
    pub fn iter(&self) -> (it: std::slice::Iter<'_, Term>)
        ensures
            vstd::std_specs::slice::into_iter_elts(it) == self.terms@,
    {
        broadcast use vstd::std_specs::slice::axiom_spec_slice_iter;

        let it = self.terms.as_slice().iter();
        assert(self.terms@.as_ref().unref() =~= self.terms@);
        it
    }

    /// Consumes the word, returning an iterator over its terms.
    pub fn into_iter(self) -> (it: std::vec::IntoIter<Term>)
        ensures
            it == vstd::std_specs::vec::spec_into_iter(self.terms),
    {
        self.terms.into_iter()
    }

    /// Returns the leading term if non-identity.
    pub fn leading_term(&self) -> (t: Option<Term>)
        ensures
            self.terms@.len() == 0 ==> t is None,
            self.terms@.len() > 0 ==> t == Some(self.terms@[0]),
    {
        if self.terms.len() == 0 {
            None
        } else {
            Some(self.terms[0])
        }
    }

    /// Returns the leading generator index if non-identity.
    pub fn leading_generator(&self) -> (g: Option<usize>)
        ensures
            self.terms@.len() == 0 ==> g is None,
            self.terms@.len() > 0 ==> g == Some(self.terms@[0].gen_index),
    {
        if self.terms.len() == 0 {
            None
        } else {
            Some(self.terms[0].gen_index)
        }
    }

    /// Returns the leading generator exponent if non-identity.
    pub fn leading_exponent(&self) -> (e: Option<u32>)
        ensures
            self.terms@.len() == 0 ==> e is None,
            self.terms@.len() > 0 ==> e == Some(self.terms@[0].exponent),
    {
        if self.terms.len() == 0 {
            None
        } else {
            Some(self.terms[0].exponent)
        }
    }

    /// Returns `true` if both words have the same terms.
    pub fn same_as(&self, other: &Word) -> (b: bool)
        ensures
            b == (self.terms@ == other.terms@),
    {
        if self.terms.len() != other.terms.len() {
            return false;
        }
        let mut i: usize = 0;
        while i < self.terms.len()
            invariant
                self.terms@.len() == other.terms@.len(),
                i <= self.terms@.len(),
                forall|k: int| 0 <= k < i ==> self.terms@[k] == other.terms@[k],
            decreases self.terms@.len() - i,
        {
            if self.terms[i] != other.terms[i] {
                return false;
            }
            i = i + 1;
        }
        assert(self.terms@ =~= other.terms@);
        true
    }

    /// The textual form of the word: `1` for the identity, otherwise the terms separated by spaces.
    pub open spec fn spec_text(&self) -> Seq<char> {
        word_text(self.terms@)
    }

    /// Appends the textual form of this word to `s`.
    pub fn write_to(&self, s: &mut String)
        ensures
            final(s)@ == old(s)@ + self.spec_text(),
    {
        proof {
            reveal_strlit("1");
            reveal_strlit(" ");
        }
        if self.terms.len() == 0 {
            push_str(s, "1");
            return;
        }
        let ghost start = s@;
        self.terms[0].write_to(s);
        let mut i: usize = 1;
        assert(self.terms@.take(1) =~= seq![self.terms@[0]]);
        assert(s@ =~= start + terms_text(self.terms@.take(1)));
        while i < self.terms.len()
            invariant
                1 <= i <= self.terms@.len(),
                s@ == start + terms_text(self.terms@.take(i as int)),
            decreases self.terms@.len() - i,
        {
            proof {
                reveal_strlit(" ");
            }
            push_str(s, " ");
            self.terms[i].write_to(s);
            assert(self.terms@.take(i as int + 1).drop_last() =~= self.terms@.take(i as int));
            assert(self.terms@.take(i as int + 1).last() == self.terms@[i as int]);
            assert(terms_text(self.terms@.take(i as int + 1)) == terms_text(self.terms@.take(i as int))
                + seq![' '] + self.terms@[i as int].spec_text());
            assert(s@ =~= start + terms_text(self.terms@.take(i as int + 1)));
            i = i + 1;
        }
        assert(self.terms@.take(i as int) =~= self.terms@);
    }

    /// Returns the textual form of the word.
    pub fn to_string(&self) -> (s: String)
        ensures
            s@ == self.spec_text(),
    {
        let mut s = String::new();
        self.write_to(&mut s);
        assert(s@ =~= self.spec_text());
        s
    }
}

impl Default for Word {
    fn default() -> (w: Self)
        ensures
            w.terms@ == Seq::<Term>::empty(),
    {
        Word { terms: Vec::new() }
    }
}

impl From<Vec<Term>> for Word {
    fn from(terms: Vec<Term>) -> (w: Self) {
        Word { terms }
    }
}

impl FromSpecImpl<Vec<Term>> for Word {
    open spec fn obeys_from_spec() -> bool {
        true
    }

    open spec fn from_spec(v: Vec<Term>) -> Word {
        Word { terms: v }
    }
}

} // verus!
