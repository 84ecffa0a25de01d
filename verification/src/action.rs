use vstd::prelude::*;
use vstd::std_specs::cmp::PartialEqSpec;
use crate::proposition::Proposition;

verus! {

/// The name of an action.  A domain action carries the caller's identifier;
/// a persistence action carries one proposition unchanged from a proposition
/// layer into the next, so that facts survive steps in which no domain
/// action touches them.
#[derive(Debug, Copy, Hash)]
pub enum ActionKind<AId, PId> {
    Act(AId),
    Persist(Proposition<PId>),
}

impl<AId: Clone, PId: Clone> Clone for ActionKind<AId, PId> {
    fn clone(&self) -> (r: Self)
        ensures
            (self matches ActionKind::Act(x) ==> (r matches ActionKind::Act(y) && cloned(
                *x,
                y,
            ))),
            (self matches ActionKind::Persist(p) ==> (r matches ActionKind::Persist(q) && cloned(
                p.id,
                q.id,
            ) && q.negation == p.negation)),
    {
        match self {
            ActionKind::Act(x) => ActionKind::Act(x.clone()),
            ActionKind::Persist(p) => ActionKind::Persist(p.clone()),
        }
    }
}

impl<AId: PartialEq + PartialEqSpec, PId: PartialEq + PartialEqSpec> PartialEq for ActionKind<
    AId,
    PId,
> {
    fn eq(&self, other: &Self) -> (r: bool) {
        match (self, other) {
            (ActionKind::Act(x), ActionKind::Act(y)) => x == y,
            (ActionKind::Persist(p), ActionKind::Persist(q)) => p == q,
            _ => false,
        }
    }
}

impl<AId: PartialEq + PartialEqSpec, PId: PartialEq + PartialEqSpec> vstd::std_specs::cmp::PartialEqSpecImpl for ActionKind<
    AId,
    PId,
> {
    open spec fn obeys_eq_spec() -> bool {
        AId::obeys_eq_spec() && PId::obeys_eq_spec()
    }

    open spec fn eq_spec(&self, other: &Self) -> bool {
        match (self, other) {
            (ActionKind::Act(x), ActionKind::Act(y)) => x.eq_spec(y),
            (ActionKind::Persist(p), ActionKind::Persist(q)) => p.id.eq_spec(&q.id)
                && p.negation == q.negation,
            _ => false,
        }
    }
}

/// A named state transformation: it may fire in a step when every
/// proposition in `reqs` holds, and it then makes every proposition in
/// `effects` hold.  Equality between actions goes by the name alone, as does
/// ordering wherever actions are kept sorted.
#[derive(Debug, Hash)]
pub struct Action<AId, PId> {
    pub id: ActionKind<AId, PId>,
    pub reqs: Vec<Proposition<PId>>,
    pub effects: Vec<Proposition<PId>>,
}

/// Whether `b` could be a clone of `a`: the name and, member for member,
/// the precondition and effect sets.
pub open spec fn action_cloned<AId: Clone, PId: Clone>(
    a: Action<AId, PId>,
    b: Action<AId, PId>,
) -> bool {
    &&& cloned(a.id, b.id)
    &&& b.reqs@.len() == a.reqs@.len()
    &&& forall|i: int| 0 <= i < a.reqs@.len() ==> cloned(a.reqs@[i], #[trigger] b.reqs@[i])
    &&& b.effects@.len() == a.effects@.len()
    &&& forall|i: int| 0 <= i < a.effects@.len() ==> cloned(a.effects@[i], #[trigger] b.effects@[i])
}

impl<AId: Clone, PId: Clone> Clone for Action<AId, PId> {
    fn clone(&self) -> (r: Self)
        ensures
            action_cloned(*self, r),
    {
        Action { id: self.id.clone(), reqs: self.reqs.clone(), effects: self.effects.clone() }
    }
}

impl<AId: PartialEq + PartialEqSpec, PId: PartialEq + PartialEqSpec> PartialEq for Action<
    AId,
    PId,
> {
    fn eq(&self, other: &Self) -> (r: bool) {
        match (&self.id, &other.id) {
            (ActionKind::Act(x), ActionKind::Act(y)) => x == y,
            (ActionKind::Persist(p), ActionKind::Persist(q)) => p.id == q.id && p.negation
                == q.negation,
            _ => false,
        }
    }
}

impl<AId: PartialEq + PartialEqSpec, PId: PartialEq + PartialEqSpec> vstd::std_specs::cmp::PartialEqSpecImpl for Action<
    AId,
    PId,
> {
    open spec fn obeys_eq_spec() -> bool {
        AId::obeys_eq_spec() && PId::obeys_eq_spec()
    }

    open spec fn eq_spec(&self, other: &Self) -> bool {
        match (&self.id, &other.id) {
            (ActionKind::Act(x), ActionKind::Act(y)) => x.eq_spec(y),
            (ActionKind::Persist(p), ActionKind::Persist(q)) => p.id.eq_spec(&q.id) && p.negation
                == q.negation,
            _ => false,
        }
    }
}
impl<AId, PId> Action<AId, PId> {
    /// A domain action under the caller's name, with the given precondition
    /// and effect propositions.
    pub fn new(id: AId, reqs: Vec<Proposition<PId>>, effects: Vec<Proposition<PId>>) -> (r: Self)
        ensures
            r.id == ActionKind::<AId, PId>::Act(id),
            r.reqs == reqs,
            r.effects == effects,
    {
        Action { id: ActionKind::Act(id), reqs, effects }
    }

    /// Whether this action is a persistence action rather than a domain
    /// action.
    pub fn is_persist(&self) -> (r: bool)
        ensures
            r == (self.id matches ActionKind::Persist(_)),
    {
        match &self.id {
            ActionKind::Act(_) => false,
            ActionKind::Persist(_) => true,
        }
    }
}

impl<AId, PId: Clone> Action<AId, PId> {
    /// The persistence action for `prop`: it needs `prop` and produces
    /// `prop`, and nothing else.
    pub fn new_persist(prop: Proposition<PId>) -> (r: Self)
        ensures
            r.id matches ActionKind::Persist(p) && cloned(prop.id, p.id) && p.negation
                == prop.negation,
            r.reqs@.len() == 1 && cloned(prop.id, r.reqs@[0].id) && r.reqs@[0].negation
                == prop.negation,
            r.effects@.len() == 1 && cloned(prop.id, r.effects@[0].id) && r.effects@[0].negation
                == prop.negation,
    {
        let name = Proposition { id: prop.id.clone(), negation: prop.negation };
        let req = Proposition { id: prop.id.clone(), negation: prop.negation };
        Action { id: ActionKind::Persist(name), reqs: vec![req], effects: vec![prop] }
    }
}

/// Whether both identifier types' `==` operators are specified: the
/// premise under which name comparisons on actions are exact.
pub open spec fn ids_eq_specified<
    AId: PartialEq + PartialEqSpec,
    PId: PartialEq + PartialEqSpec,
>() -> bool {
    AId::obeys_eq_spec() && PId::obeys_eq_spec()
}

/// Whether the set `set` holds `a` itself or an action of `a`'s name.
pub open spec fn name_represented_in<
    AId: PartialEq + PartialEqSpec,
    PId: PartialEq + PartialEqSpec,
>(set: Seq<Action<AId, PId>>, a: Action<AId, PId>) -> bool {
    exists|m: int| 0 <= m < set.len() && (set[m] == a || action_same_name(set[m], a))
}

/// Whether some position before `k` holds an action of the same name as
/// the one at `k`.
pub open spec fn has_earlier_same_name<
    AId: PartialEq + PartialEqSpec,
    PId: PartialEq + PartialEqSpec,
>(acts: Seq<Action<AId, PId>>, k: int) -> bool {
    exists|k2: int| 0 <= k2 < k && action_same_name(acts[k2], acts[k])
}

/// Whether two actions carry the same name, stated over the identifier
/// types' own equality specifications (the relation `==` on actions
/// decides by).
pub open spec fn action_same_name<
    AId: PartialEq + PartialEqSpec,
    PId: PartialEq + PartialEqSpec,
>(a: Action<AId, PId>, b: Action<AId, PId>) -> bool {
    match (a.id, b.id) {
        (ActionKind::Act(x), ActionKind::Act(y)) => x.eq_spec(&y),
        (ActionKind::Persist(p), ActionKind::Persist(q)) => p.id.eq_spec(&q.id) && p.negation
            == q.negation,
        _ => false,
    }
}

/// Exact test of `action_same_name`, for identifier types whose `==` is
/// specified.
pub fn same_action_name<
    AId: PartialEq + PartialEqSpec,
    PId: PartialEq + PartialEqSpec,
>(a: &Action<AId, PId>, b: &Action<AId, PId>) -> (r: bool)
    ensures
        (AId::obeys_eq_spec() && PId::obeys_eq_spec()) ==> r == action_same_name(*a, *b),
{
    match (&a.id, &b.id) {
        (ActionKind::Act(x), ActionKind::Act(y)) => x == y,
        (ActionKind::Persist(p), ActionKind::Persist(q)) => p.id == q.id && p.negation
            == q.negation,
        _ => false,
    }
}

/// Whether `a` orders before `b` by name: domain actions by their
/// identifier, and before every persistence action.
pub(crate) fn action_named_before<AId: PartialOrd, PId>(
    a: &Action<AId, PId>,
    b: &Action<AId, PId>,
) -> bool {
    match (&a.id, &b.id) {
        (ActionKind::Act(x), ActionKind::Act(y)) => x.lt(y),
        (ActionKind::Act(_), ActionKind::Persist(_)) => true,
        _ => false,
    }
}

/// The given actions sorted by name, one entry per distinct name, in the
/// order an ordered set would keep them.
pub(crate) fn sorted_action_set<
    AId: Clone + PartialEq + PartialEqSpec + PartialOrd,
    PId: Clone + PartialEq + PartialEqSpec,
>(actions: Vec<Action<AId, PId>>) -> (r: Vec<Action<AId, PId>>)
    ensures
        forall|m: int| 0 <= m < r@.len() ==> actions@.contains(#[trigger] r@[m]),
        ids_eq_specified::<AId, PId>() ==> (forall|k: int|
            0 <= k < actions@.len() ==> name_represented_in(r@, #[trigger] actions@[k])),
{
    let ghost orig_actions = actions@;
    let mut rem = actions;
    let mut universe: Vec<Action<AId, PId>> = Vec::new();
    while rem.len() > 0
        invariant
            rem@.len() <= orig_actions.len(),
            forall|m: int|
                0 <= m < universe@.len() ==> orig_actions.contains(#[trigger] universe@[m]),
            forall|k: int|
                0 <= k < rem@.len() ==> rem@[k] == orig_actions[orig_actions.len() - rem@.len()
                    + k],
            ids_eq_specified::<AId, PId>() ==> (forall|k: int|
                0 <= k < orig_actions.len() - rem@.len() ==> name_represented_in(
                    universe@,
                    #[trigger] orig_actions[k],
                )),
        decreases rem@.len(),
    {
        let ghost done = orig_actions.len() - rem@.len();
        proof {
            assert(rem@.contains(rem@[0]));
            assert(rem@[0] == orig_actions[done]);
        }
        let a = rem.remove(0);
        let mut dup = false;
        let n = universe.len();
        let mut k: usize = 0;
        while k < n
            invariant
                n == universe@.len(),
                k <= n,
                ids_eq_specified::<AId, PId>() ==> (dup ==> exists|k2: int|
                    0 <= k2 < universe@.len() && crate::action::action_same_name(
                        universe@[k2],
                        a,
                    )),
            decreases n - k,
        {
            if same_action_name(&universe[k], &a) {
                proof {
                    if ids_eq_specified::<AId, PId>() {
                        assert(action_same_name(universe@[k as int], a));
                    }
                }
                dup = true;
            }
            k += 1;
        }
        if dup {
            proof {
                if ids_eq_specified::<AId, PId>() {
                    assert(name_represented_in(universe@, orig_actions[done]));
                    assert forall|k3: int| 0 <= k3 < done + 1 implies name_represented_in(
                        universe@,
                        #[trigger] orig_actions[k3],
                    ) by {}
                }
            }
        }
        if !dup {
            let mut pos: usize = 0;
            let mut searching = true;
            while searching
                invariant
                    pos <= universe@.len(),
                decreases universe@.len() - pos + (if searching {
                    1int
                } else {
                    0int
                }),
            {
                if pos < universe.len() && action_named_before(&universe[pos], &a) {
                    pos += 1;
                } else {
                    searching = false;
                }
            }
            let ghost old_u = universe@;
            universe.insert(pos, a);
            proof {
                assert forall|m: int|
                    0 <= m < universe@.len() implies orig_actions.contains(
                    #[trigger] universe@[m],
                ) by {
                    if m < pos {
                        assert(universe@[m] == old_u[m]);
                    } else if m == pos {
                    } else {
                        assert(universe@[m] == old_u[m - 1]);
                    }
                }
                if ids_eq_specified::<AId, PId>() {
                    assert(universe@[pos as int] == orig_actions[done]);
                    assert(name_represented_in(universe@, orig_actions[done]));
                    assert forall|k3: int| 0 <= k3 < done + 1 implies name_represented_in(
                        universe@,
                        #[trigger] orig_actions[k3],
                    ) by {
                        if k3 < done {
                            let mi = choose|mi: int|
                                0 <= mi < old_u.len() && (old_u[mi] == orig_actions[k3]
                                    || action_same_name(old_u[mi], orig_actions[k3]));
                            if mi < pos {
                                assert(universe@[mi] == old_u[mi]);
                            } else {
                                assert(universe@[mi + 1] == old_u[mi]);
                            }
                        }
                    }
                }
            }
        }
    }
    universe
}

} // verus!
