use vstd::prelude::*;
use vstd::std_specs::cmp::PartialEqSpec;
use crate::proposition::Proposition;

verus! {

/// Whether `T`'s `==` is fully specified and agrees with mathematical
/// equality.  The unordered-pair operations below promise exact set
/// semantics only under this premise; it holds for the plain value types
/// the planner's core works over.
pub open spec fn eq_is_structural<T: PartialEq>() -> bool {
    &&& T::obeys_eq_spec()
    &&& forall|a: T, b: T| #[trigger] a.eq_spec(&b) <==> a == b
}

/// Whether cloning a `T` always reproduces the value exactly.  True of
/// plain value types; for an arbitrary `Clone` type only the weaker
/// `cloned` relation can be promised.
pub open spec fn clone_is_exact<T: Clone>() -> bool {
    forall|a: T, b: T| #[trigger] cloned(a, b) ==> b == a
}

/// `usize`'s `==` is mathematical equality.
pub proof fn lemma_usize_eq_structural()
    ensures
        eq_is_structural::<usize>(),
{
}

/// Equality on propositions over `usize` identifiers is mathematical
/// equality on the two fields.
pub proof fn lemma_lit_eq_structural()
    ensures
        eq_is_structural::<Proposition<usize>>(),
{
    assert forall|a: Proposition<usize>, b: Proposition<usize>| #[trigger] a.eq_spec(&b) <==> a
        == b by {
        assert(a.eq_spec(&b) == (a.id.eq_spec(&b.id) && a.negation == b.negation));
    }
}

/// Whether the pair sequence `s` holds the unordered pair `{x, y}`, in
/// either orientation.
pub open spec fn spec_has_pair<T>(s: Seq<(T, T)>, x: T, y: T) -> bool {
    exists|k: int| 0 <= k < s.len() && (s[k] == (x, y) || s[k] == (y, x))
}

/// Pushing another pair onto a pair sequence keeps every unordered pair it
/// already held.
pub proof fn lemma_has_pair_push<T>(s: Seq<(T, T)>, p: (T, T), x: T, y: T)
    requires
        spec_has_pair(s, x, y),
    ensures
        spec_has_pair(s.push(p), x, y),
{
    let k = choose|k: int| 0 <= k < s.len() && (s[k] == (x, y) || s[k] == (y, x));
    assert(s.push(p)[k] == s[k]);
}

/// A set of unordered pairs over `T`: the conflict relation of one layer of
/// the plan graph.  Membership is symmetric in the two components.
pub struct MutexPairs<T> {
    pairs: Vec<(T, T)>,
}

impl<T> View for MutexPairs<T> {
    type V = Seq<(T, T)>;

    closed spec fn view(&self) -> Seq<(T, T)> {
        self.pairs@
    }
}

impl<T: PartialEq> MutexPairs<T> {
    /// The empty relation.
    pub fn new() -> (r: Self)
        ensures
            r@ == Seq::<(T, T)>::empty(),
    {
        MutexPairs { pairs: Vec::new() }
    }

    /// Records the unordered pair `{x, y}`.
    pub fn insert(&mut self, x: T, y: T)
        ensures
            final(self)@ == old(self)@.push((x, y)),
    {
        self.pairs.push((x, y));
    }

    /// The recorded pairs, in insertion order.
    pub fn pairs(&self) -> (r: &Vec<(T, T)>)
        ensures
            r@ == self@,
    {
        &self.pairs
    }

    /// Whether the unordered pair `{x, y}` is in the relation.
    pub fn contains_pair(&self, x: &T, y: &T) -> (r: bool)
        ensures
            eq_is_structural::<T>() ==> r == spec_has_pair(self@, *x, *y),
    {
        let n = self.pairs.len();
        let mut k: usize = 0;
        while k < n
            invariant
                n == self.pairs.len(),
                k <= n,
                eq_is_structural::<T>() ==> forall|m: int|
                    0 <= m < k ==> !(self@[m] == (*x, *y) || self@[m] == (*y, *x)),
            decreases n - k,
        {
            let (a, b) = &self.pairs[k];
            if (a == x && b == y) || (a == y && b == x) {
                proof {
                    if eq_is_structural::<T>() {
                        assert(self@[k as int] == (*x, *y) || self@[k as int] == (*y, *x));
                    }
                }
                return true;
            }
            k += 1;
        }
        false
    }

    /// Whether some unordered pair of `other` is also in `self`.
    pub fn intersects(&self, other: &MutexPairs<T>) -> (r: bool)
        ensures
            eq_is_structural::<T>() ==> r == (exists|k: int|
                0 <= k < other@.len() && spec_has_pair(self@, other@[k].0, other@[k].1)),
    {
        let n = other.pairs.len();
        let mut k: usize = 0;
        while k < n
            invariant
                n == other.pairs.len(),
                k <= n,
                eq_is_structural::<T>() ==> forall|m: int|
                    0 <= m < k ==> !spec_has_pair(self@, other@[m].0, other@[m].1),
            decreases n - k,
        {
            let (a, b) = &other.pairs[k];
            if self.contains_pair(a, b) {
                proof {
                    if eq_is_structural::<T>() {
                        assert(spec_has_pair(self@, other@[k as int].0, other@[k as int].1));
                    }
                }
                return true;
            }
            k += 1;
        }
        false
    }

    /// Whether every unordered pair of `self` is also in `other`.
    pub fn is_subset_of(&self, other: &MutexPairs<T>) -> (r: bool)
        ensures
            eq_is_structural::<T>() ==> r == (forall|k: int|
                0 <= k < self@.len() ==> spec_has_pair(other@, self@[k].0, self@[k].1)),
    {
        let n = self.pairs.len();
        let mut k: usize = 0;
        while k < n
            invariant
                n == self.pairs.len(),
                k <= n,
                eq_is_structural::<T>() ==> forall|m: int|
                    0 <= m < k ==> spec_has_pair(other@, self@[m].0, self@[m].1),
            decreases n - k,
        {
            let (a, b) = &self.pairs[k];
            if !other.contains_pair(a, b) {
                proof {
                    if eq_is_structural::<T>() {
                        assert(!spec_has_pair(other@, self@[k as int].0, self@[k as int].1));
                    }
                }
                return false;
            }
            k += 1;
        }
        true
    }

    /// Whether `self` and `other` hold the same unordered pairs.
    pub fn same_pairs(&self, other: &MutexPairs<T>) -> (r: bool)
        ensures
            eq_is_structural::<T>() ==> r == ((forall|k: int|
                0 <= k < self@.len() ==> spec_has_pair(other@, self@[k].0, self@[k].1)) && (
            forall|k: int|
                0 <= k < other@.len() ==> spec_has_pair(self@, other@[k].0, other@[k].1))),
    {
        let fwd = self.is_subset_of(other);
        let bwd = other.is_subset_of(self);
        fwd && bwd
    }
}

/// All unordered cross pairs `{s, t}` with `s` from the first set and `t`
/// from the second.  A pair of an element with itself appears only when the
/// element is in both sets.
pub fn pairs_from_sets<T: PartialEq + Copy>(s: &Vec<T>, t: &Vec<T>) -> (r: MutexPairs<T>)
    ensures
        forall|k: int|
            0 <= k < r@.len() ==> s@.contains(#[trigger] r@[k].0) && t@.contains(r@[k].1),
        forall|i: int, j: int|
            0 <= i < s@.len() && 0 <= j < t@.len() ==> spec_has_pair(r@, s@[i], t@[j]),
{
    let mut r: MutexPairs<T> = MutexPairs::new();
    let mut i: usize = 0;
    while i < s.len()
        invariant
            i <= s@.len(),
            forall|k: int|
                0 <= k < r@.len() ==> s@.contains(#[trigger] r@[k].0) && t@.contains(r@[k].1),
            forall|i2: int, j2: int|
                0 <= i2 < i && 0 <= j2 < t@.len() ==> spec_has_pair(r@, s@[i2], t@[j2]),
        decreases s@.len() - i,
    {
        let mut j: usize = 0;
        while j < t.len()
            invariant
                i < s@.len(),
                j <= t@.len(),
                forall|k: int|
                    0 <= k < r@.len() ==> s@.contains(#[trigger] r@[k].0) && t@.contains(r@[k].1),
                forall|i2: int, j2: int|
                    0 <= i2 < i && 0 <= j2 < t@.len() ==> spec_has_pair(r@, s@[i2], t@[j2]),
                forall|j2: int| 0 <= j2 < j ==> spec_has_pair(r@, s@[i as int], t@[j2]),
            decreases t@.len() - j,
        {
            let ghost old_r = r@;
            let ghost new_pair = (s@[i as int], t@[j as int]);
            r.insert(s[i], t[j]);
            proof {
                assert(r@ == old_r.push(new_pair));
                assert(r@[old_r.len() as int] == new_pair);
                assert(spec_has_pair(r@, s@[i as int], t@[j as int]));
                assert forall|i2: int, j2: int|
                    0 <= i2 < i && 0 <= j2 < t@.len() implies spec_has_pair(
                    r@,
                    s@[i2],
                    t@[j2],
                ) by {
                    lemma_has_pair_push(old_r, new_pair, s@[i2], t@[j2]);
                }
                assert forall|j2: int| 0 <= j2 < j implies spec_has_pair(
                    r@,
                    s@[i as int],
                    t@[j2],
                ) by {
                    lemma_has_pair_push(old_r, new_pair, s@[i as int], t@[j2]);
                }
            }
            j += 1;
        }
        i += 1;
    }
    r
}

} // verus!
