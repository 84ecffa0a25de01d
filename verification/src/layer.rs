use vstd::prelude::*;
use crate::proposition::Proposition;
use crate::pairset::MutexPairs;

verus! {

/// A literal of the core: a proposition whose identifier has been interned
/// to its index in the owning graph's identifier table.  Literals are plain
/// values, so every operation on them has an exact contract.
pub type Lit = Proposition<usize>;

/// Whether two literals are the same value.
pub fn lit_eq(a: &Lit, b: &Lit) -> (r: bool)
    ensures
        r == (*a == *b),
{
    a.id == b.id && a.negation == b.negation
}

/// The opposite literal: same identifier, flipped polarity.
pub fn lit_negated(p: &Lit) -> (r: Lit)
    ensures
        r == p.spec_negate(),
{
    Proposition { id: p.id, negation: !p.negation }
}

/// Whether the literal set `v` holds `p`.
pub fn lits_contains(v: &Vec<Lit>, p: &Lit) -> (r: bool)
    ensures
        r == v@.contains(*p),
{
    let n = v.len();
    let mut k: usize = 0;
    while k < n
        invariant
            n == v@.len(),
            k <= n,
            forall|m: int| 0 <= m < k ==> v@[m] != *p,
        decreases n - k,
    {
        if lit_eq(&v[k], p) {
            return true;
        }
        k += 1;
    }
    false
}

/// Adds `p` to the literal set `v` unless it is already there.
pub fn lits_insert(v: &mut Vec<Lit>, p: Lit)
    ensures
        old(v)@.contains(p) ==> final(v)@ == old(v)@,
        !old(v)@.contains(p) ==> final(v)@ == old(v)@.push(p),
        final(v)@.contains(p),
        forall|q: Lit| old(v)@.contains(q) ==> final(v)@.contains(q),
        forall|q: Lit| final(v)@.contains(q) ==> old(v)@.contains(q) || q == p,
{
    if !lits_contains(v, &p) {
        let ghost old_v = v@;
        v.push(p);
        proof {
            assert(v@[old_v.len() as int] == p);
            assert forall|q: Lit| old_v.contains(q) implies v@.contains(q) by {
                let m = choose|m: int| 0 <= m < old_v.len() && old_v[m] == q;
                assert(v@[m] == q);
            }
        }
    }
}

/// Whether every literal of `a` is in `b`.
pub fn lits_subset(a: &Vec<Lit>, b: &Vec<Lit>) -> (r: bool)
    ensures
        r == (forall|m: int| 0 <= m < a@.len() ==> b@.contains(a@[m])),
{
    let n = a.len();
    let mut k: usize = 0;
    while k < n
        invariant
            n == a@.len(),
            k <= n,
            forall|m: int| 0 <= m < k ==> b@.contains(a@[m]),
        decreases n - k,
    {
        if !lits_contains(b, &a[k]) {
            return false;
        }
        k += 1;
    }
    true
}

/// Whether `a` and `b` hold the same literals.
pub fn lits_same_set(a: &Vec<Lit>, b: &Vec<Lit>) -> (r: bool)
    ensures
        r == ((forall|m: int| 0 <= m < a@.len() ==> b@.contains(a@[m])) && (forall|m: int|
            0 <= m < b@.len() ==> a@.contains(b@[m]))),
{
    let fwd = lits_subset(a, b);
    let bwd = lits_subset(b, a);
    fwd && bwd
}

/// One layer of the plan graph.  Layers alternate: a proposition layer holds
/// the literals achievable at that depth with their conflict relation; an
/// action layer holds the indices of the core actions applicable there with
/// theirs.
pub enum Layer {
    Props { props: Vec<Lit>, mutexes: MutexPairs<Lit> },
    Acts { acts: Vec<usize>, mutexes: MutexPairs<usize> },
}

} // verus!
