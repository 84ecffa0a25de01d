use vstd::prelude::*;
use vstd::std_specs::cmp::PartialEqSpec;

verus! {

/// An atomic, polarity-aware fact: an identifier together with a negation
/// flag.  Two propositions denote the same literal exactly when both the
/// identifier and the polarity agree; `p` and `p.negate()` are distinct
/// literals over the same identifier.
#[derive(Copy, Hash, Debug)]
pub struct Proposition<Id> {
    pub id: Id,
    pub negation: bool,
}

impl<Id: Clone> Clone for Proposition<Id> {
    fn clone(&self) -> (r: Self)
        ensures
            cloned(self.id, r.id),
            r.negation == self.negation,
    {
        Proposition { id: self.id.clone(), negation: self.negation }
    }
}

impl<Id> Proposition<Id> {
    /// The same fact with the opposite polarity, as a mathematical value.
    pub open spec fn spec_negate(self) -> Proposition<Id> {
        Proposition { id: self.id, negation: !self.negation }
    }

    /// Whether `other` names the same fact with the opposite polarity.
    pub open spec fn spec_is_negation(self, other: Proposition<Id>) -> bool {
        other.id == self.id && other.negation == !self.negation
    }
}

/// Negation is involutive: negating a proposition twice gives back the
/// original value.
pub proof fn lemma_negate_involutive<Id>(p: Proposition<Id>)
    ensures
        p.spec_negate().spec_negate() == p,
{
}

/// Negation symmetry: `p` is the negation of `q` exactly when `q` is the
/// negation of `p`.
pub proof fn lemma_is_negation_symmetric<Id>(p: Proposition<Id>, q: Proposition<Id>)
    ensures
        p.spec_is_negation(q) == q.spec_is_negation(p),
{
}

impl<Id: Clone + PartialEq> Proposition<Id> {
    /// A proposition over `id` with the given polarity.
    pub fn new(id: Id, negation: bool) -> (r: Self)
        ensures
            r.id == id,
            r.negation == negation,
    {
        Proposition { id, negation }
    }

    /// A new proposition over the same identifier with flipped polarity;
    /// the receiver is unchanged.
    pub fn negate(&self) -> (r: Self)
        ensures
            cloned(self.id, r.id),
            r.negation == !self.negation,
            r.id == self.id ==> r == self.spec_negate(),
    {
        Proposition { id: self.id.clone(), negation: !self.negation }
    }

    /// Whether `prop` is the same fact as `self` with the opposite polarity.
    pub fn is_negation(&self, prop: &Self) -> (r: bool)
        ensures
            Id::obeys_eq_spec() ==> r == (prop.id.eq_spec(&self.id) && prop.negation
                == !self.negation),
            crate::pairset::eq_is_structural::<Id>() ==> r == self.spec_is_negation(*prop),
    {
        prop.id == self.id && prop.negation == !self.negation
    }
}

impl<Id: PartialEq + PartialEqSpec> PartialEq for Proposition<Id> {
    fn eq(&self, other: &Self) -> (r: bool) {
        self.id == other.id && self.negation == other.negation
    }
}

impl<Id: PartialEq + PartialEqSpec> vstd::std_specs::cmp::PartialEqSpecImpl for Proposition<Id> {
    open spec fn obeys_eq_spec() -> bool {
        Id::obeys_eq_spec()
    }

    open spec fn eq_spec(&self, other: &Self) -> bool {
        self.id.eq_spec(&other.id) && self.negation == other.negation
    }
}

impl<Id: PartialEq + PartialEqSpec + Eq> Eq for Proposition<Id> {

}

impl From<&'static str> for Proposition<&'static str> {
    fn from(s: &'static str) -> (r: Self) {
        Proposition { id: s, negation: false }
    }
}

impl vstd::std_specs::convert::FromSpecImpl<&'static str> for Proposition<&'static str> {
    open spec fn obeys_from_spec() -> bool {
        true
    }

    open spec fn from_spec(s: &'static str) -> Self {
        Proposition { id: s, negation: false }
    }
}

impl From<String> for Proposition<String> {
    fn from(s: String) -> (r: Self) {
        Proposition { id: s, negation: false }
    }
}

impl vstd::std_specs::convert::FromSpecImpl<String> for Proposition<String> {
    open spec fn obeys_from_spec() -> bool {
        true
    }

    open spec fn from_spec(s: String) -> Self {
        Proposition { id: s, negation: false }
    }
}

} // verus!
