use vstd::prelude::*;
use vstd::std_specs::cmp::PartialEqSpec;
use crate::pairset::clone_is_exact;
use crate::action::{Action, ActionKind};
use crate::layer::{Layer, Lit, lit_negated, lits_contains, lits_insert, lits_same_set, lits_subset};
use crate::pairset::{MutexPairs, eq_is_structural, lemma_lit_eq_structural, lemma_usize_eq_structural, spec_has_pair};
use crate::proposition::Proposition;

verus! {

/// A hard error from a layer lookup: the request names a position that does
/// not exist or is not an action layer.  Distinct from a "no plan" result,
/// which is an ordinary outcome.
#[derive(Clone, Copy, Debug, PartialEq, Eq, Structural)]
pub enum GraphplanError {
    LayerOutOfRange,
    NotAnActionLayer,
}

/// A core action: preconditions and effects over interned literals.  The
/// graph's `core` table holds one entry per domain action followed by one
/// persistence entry per literal.
pub struct LitAction {
    pub reqs: Vec<Lit>,
    pub effects: Vec<Lit>,
}

/// One valid plan: an ordered sequence of action groups, the group at
/// position 0 executed first.
pub type Solution<AId, PId> = Vec<Vec<Action<AId, PId>>>;

/// The plan graph: the domain (initial literals, goal literals, action
/// universe) together with the alternating layers built so far.
pub struct PlanGraph<AId, PId> {
    /// The domain actions, sorted by name, deduplicated.
    pub universe: Vec<Action<AId, PId>>,
    /// The interning table: the distinct proposition identifiers, in order
    /// of first appearance.  Literal `p` stands for the proposition over
    /// `prop_ids[p.id]` with polarity `p.negation`.
    pub prop_ids: Vec<PId>,
    /// The initial world state, as literals.
    pub initial: Vec<Lit>,
    /// The goal state, as literals.
    pub goals: Vec<Lit>,
    /// Core actions: one per entry of `universe`, then the persistence
    /// action of each literal.
    pub core: Vec<LitAction>,
    /// The layers built so far; `layers[0]` is the initial proposition
    /// layer, and proposition and action layers alternate.
    pub layers: Vec<Layer>,
}

/// The literal set of a proposition layer.
pub open spec fn layer_props(l: Layer) -> Seq<Lit> {
    match l {
        Layer::Props { props, .. } => props@,
        Layer::Acts { .. } => Seq::empty(),
    }
}

/// The conflict relation of a proposition layer.
pub open spec fn layer_prop_mutexes(l: Layer) -> Seq<(Lit, Lit)> {
    match l {
        Layer::Props { mutexes, .. } => mutexes@,
        Layer::Acts { .. } => Seq::empty(),
    }
}

/// The core action indices of an action layer.
pub open spec fn layer_acts(l: Layer) -> Seq<usize> {
    match l {
        Layer::Props { .. } => Seq::empty(),
        Layer::Acts { acts, .. } => acts@,
    }
}

/// The conflict relation of an action layer.
pub open spec fn layer_act_mutexes(l: Layer) -> Seq<(usize, usize)> {
    match l {
        Layer::Props { .. } => Seq::empty(),
        Layer::Acts { mutexes, .. } => mutexes@,
    }
}

impl<AId, PId> PlanGraph<AId, PId> {
    /// The literal carried by the persistence action at core index
    /// `universe.len() + k`.
    pub open spec fn persist_lit(self, k: int) -> Lit {
        Proposition { id: (k / 2) as usize, negation: k % 2 == 1 }
    }

    /// Whether a literal's identifier is within the interning table.
    pub open spec fn lit_ok(self, p: Lit) -> bool {
        p.id < self.prop_ids@.len()
    }

    /// Whether every literal of `s` is within the interning table.
    pub open spec fn lits_ok(self, s: Seq<Lit>) -> bool {
        forall|m: int| 0 <= m < s.len() ==> self.lit_ok(#[trigger] s[m])
    }

    /// Well-formedness of the layer at position `i`: proposition layers at
    /// even positions, action layers at odd ones, every index in range.
    pub open spec fn layer_wf(self, i: int) -> bool {
        if i % 2 == 0 {
            &&& self.layers@[i] matches Layer::Props { props, .. }
            &&& self.lits_ok(layer_props(self.layers@[i]))
        } else {
            &&& self.layers@[i] matches Layer::Acts { acts, .. }
            &&& forall|m: int|
                0 <= m < layer_acts(self.layers@[i]).len() ==> layer_acts(self.layers@[i])[m]
                    < self.core@.len()
            &&& forall|m: int, n: int|
                0 <= m < n < layer_acts(self.layers@[i]).len() ==> layer_acts(self.layers@[i])[m]
                    < layer_acts(self.layers@[i])[n]
            &&& forall|m: int|
                0 <= m < layer_acts(self.layers@[i]).len() ==> self.spec_applicable(
                    #[trigger] layer_acts(self.layers@[i])[m] as int,
                    layer_props(self.layers@[i - 1]),
                )
        }
    }

    /// Well-formedness of the whole graph.
    pub open spec fn wf(self) -> bool {
        &&& self.core@.len() == self.universe@.len() + 2 * self.prop_ids@.len()
        &&& forall|j: int|
            0 <= j < self.core@.len() ==> self.lits_ok(#[trigger] self.core@[j].reqs@)
                && self.lits_ok(self.core@[j].effects@)
        &&& forall|j: int|
            self.universe@.len() <= j < self.core@.len() ==> (#[trigger] self.core@[j]).reqs@
                == seq![self.persist_lit(j - self.universe@.len())] && self.core@[j].effects@
                == seq![self.persist_lit(j - self.universe@.len())]
        &&& self.layers@.len() >= 1
        &&& self.layers@.len() % 2 == 1
        &&& forall|i: int| 0 <= i < self.layers@.len() ==> self.layer_wf(i)
        &&& layer_props(self.layers@[0]) == self.initial@
        &&& self.lits_ok(self.initial@)
        &&& self.lits_ok(self.goals@)
        &&& self.goals@.len() >= 1
    }

    /// Whether core action `j` may fire given the proposition set `props`:
    /// all of its preconditions are present.
    pub open spec fn spec_applicable(self, j: int, props: Seq<Lit>) -> bool {
        forall|m: int|
            0 <= m < self.core@[j].reqs@.len() ==> props.contains(#[trigger] self.core@[j].reqs@[m])
    }

    /// Whether core action `j` produces the literal `p`.
    pub open spec fn spec_achieves(self, j: int, p: Lit) -> bool {
        self.core@[j].effects@.contains(p)
    }

    /// Whether every literal of `props` is an effect of some action in
    /// `acts`.
    pub open spec fn spec_from_acts(self, acts: Seq<usize>, props: Seq<Lit>) -> bool {
        forall|m: int|
            0 <= m < props.len() ==> exists|n: int|
                0 <= n < acts.len() && self.spec_achieves(acts[n] as int, #[trigger] props[m])
    }

    /// Inconsistent effects: one action's effect is the negation of the
    /// other's effect.
    pub open spec fn spec_inconsistent(self, j: int, k: int) -> bool {
        exists|p: Lit|
            self.core@[j].effects@.contains(p) && self.core@[k].effects@.contains(p.spec_negate())
    }

    /// Interference: one action's effect is the negation of a precondition
    /// of the other.
    pub open spec fn spec_interference(self, j: int, k: int) -> bool {
        ||| exists|p: Lit|
            self.core@[j].effects@.contains(p) && self.core@[k].reqs@.contains(p.spec_negate())
        ||| exists|p: Lit|
            self.core@[k].effects@.contains(p) && self.core@[j].reqs@.contains(p.spec_negate())
    }

    /// Competing needs: some precondition of one action is in conflict with
    /// some precondition of the other, under the previous proposition
    /// layer's relation `pm`.
    pub open spec fn spec_competing(self, j: int, k: int, pm: Seq<(Lit, Lit)>) -> bool {
        exists|p: Lit, q: Lit|
            self.core@[j].reqs@.contains(p) && self.core@[k].reqs@.contains(q) && spec_has_pair(
                pm,
                p,
                q,
            )
    }

    /// Whether two core actions are mutually exclusive at a layer whose
    /// preceding proposition layer has conflict relation `pm`.
    pub open spec fn spec_action_mutex(self, j: int, k: int, pm: Seq<(Lit, Lit)>) -> bool {
        self.spec_inconsistent(j, k) || self.spec_interference(j, k) || self.spec_competing(
            j,
            k,
            pm,
        )
    }

    /// Whether every pair of actions achieving `p` and `q` out of `acts` is
    /// mutually exclusive under `am` — in particular, no single action
    /// achieves both.
    pub open spec fn spec_all_achiever_pairs_mutex(
        self,
        p: Lit,
        q: Lit,
        acts: Seq<usize>,
        am: Seq<(usize, usize)>,
    ) -> bool {
        forall|m: int, n: int|
            #![trigger acts[m], acts[n]]
            0 <= m < acts.len() && 0 <= n < acts.len() && self.spec_achieves(acts[m] as int, p)
                && self.spec_achieves(acts[n] as int, q) ==> acts[m] != acts[n] && spec_has_pair(
                am,
                acts[m],
                acts[n],
            )
    }

    /// Whether two literals are mutually exclusive in a proposition layer
    /// produced by the action set `acts` with conflict relation `am`.
    pub open spec fn spec_prop_mutex(
        self,
        p: Lit,
        q: Lit,
        acts: Seq<usize>,
        am: Seq<(usize, usize)>,
    ) -> bool {
        p.spec_is_negation(q) || self.spec_all_achiever_pairs_mutex(p, q, acts, am)
    }
}

impl<AId, PId> PlanGraph<AId, PId> {
    /// Exact test of `spec_applicable`.
    fn is_applicable(&self, j: usize, props: &Vec<Lit>) -> (r: bool)
        requires
            j < self.core@.len(),
        ensures
            r == self.spec_applicable(j as int, props@),
    {
        lits_subset(&self.core[j].reqs, props)
    }

    /// Exact test of `spec_inconsistent`.
    fn check_inconsistent(&self, j: usize, k: usize) -> (r: bool)
        requires
            j < self.core@.len(),
            k < self.core@.len(),
        ensures
            r == self.spec_inconsistent(j as int, k as int),
    {
        let effs = &self.core[j].effects;
        let n = effs.len();
        let mut m: usize = 0;
        while m < n
            invariant
                n == effs@.len(),
                m <= n,
                effs@ == self.core@[j as int].effects@,
                j < self.core@.len(),
                k < self.core@.len(),
                forall|m2: int|
                    0 <= m2 < m ==> !self.core@[k as int].effects@.contains(
                        (#[trigger] effs@[m2]).spec_negate(),
                    ),
            decreases n - m,
        {
            let neg = lit_negated(&effs[m]);
            if lits_contains(&self.core[k].effects, &neg) {
                proof {
                    assert(self.core@[j as int].effects@.contains(effs@[m as int]));
                    assert(self.core@[k as int].effects@.contains(effs@[m as int].spec_negate()));
                }
                return true;
            }
            m += 1;
        }
        proof {
            if self.spec_inconsistent(j as int, k as int) {
                let p = choose|p: Lit|
                    self.core@[j as int].effects@.contains(p) && self.core@[
                        k as int
                    ].effects@.contains(p.spec_negate());
                let m2 = choose|m2: int|
                    0 <= m2 < effs@.len() && effs@[m2] == p;
                assert(false);
            }
        }
        false
    }

    /// Exact test of one direction of interference: some effect of `j` is
    /// the negation of a precondition of `k`.
    fn check_interferes_one_way(&self, j: usize, k: usize) -> (r: bool)
        requires
            j < self.core@.len(),
            k < self.core@.len(),
        ensures
            r == exists|p: Lit|
                self.core@[j as int].effects@.contains(p) && self.core@[k as int].reqs@.contains(
                    p.spec_negate(),
                ),
    {
        let effs = &self.core[j].effects;
        let n = effs.len();
        let mut m: usize = 0;
        while m < n
            invariant
                n == effs@.len(),
                m <= n,
                effs@ == self.core@[j as int].effects@,
                j < self.core@.len(),
                k < self.core@.len(),
                forall|m2: int|
                    0 <= m2 < m ==> !self.core@[k as int].reqs@.contains(
                        (#[trigger] effs@[m2]).spec_negate(),
                    ),
            decreases n - m,
        {
            let neg = lit_negated(&effs[m]);
            if lits_contains(&self.core[k].reqs, &neg) {
                proof {
                    assert(self.core@[j as int].effects@.contains(effs@[m as int]));
                    assert(self.core@[k as int].reqs@.contains(effs@[m as int].spec_negate()));
                }
                return true;
            }
            m += 1;
        }
        proof {
            if exists|p: Lit|
                self.core@[j as int].effects@.contains(p) && self.core@[k as int].reqs@.contains(
                    p.spec_negate(),
                ) {
                let p = choose|p: Lit|
                    self.core@[j as int].effects@.contains(p) && self.core@[
                        k as int
                    ].reqs@.contains(p.spec_negate());
                let m2 = choose|m2: int|
                    0 <= m2 < effs@.len() && effs@[m2] == p;
                assert(false);
            }
        }
        false
    }

    /// Exact test of `spec_interference`.
    fn check_interference(&self, j: usize, k: usize) -> (r: bool)
        requires
            j < self.core@.len(),
            k < self.core@.len(),
        ensures
            r == self.spec_interference(j as int, k as int),
    {
        let fwd = self.check_interferes_one_way(j, k);
        let bwd = self.check_interferes_one_way(k, j);
        fwd || bwd
    }

    /// Exact test of `spec_competing`.
    fn check_competing(&self, j: usize, k: usize, pm: &MutexPairs<Lit>) -> (r: bool)
        requires
            j < self.core@.len(),
            k < self.core@.len(),
        ensures
            r == self.spec_competing(j as int, k as int, pm@),
    {
        proof {
            lemma_lit_eq_structural();
        }
        let reqs_j = &self.core[j].reqs;
        let reqs_k = &self.core[k].reqs;
        let nj = reqs_j.len();
        let mut m: usize = 0;
        while m < nj
            invariant
                nj == reqs_j@.len(),
                m <= nj,
                reqs_j@ == self.core@[j as int].reqs@,
                reqs_k@ == self.core@[k as int].reqs@,
                j < self.core@.len(),
                k < self.core@.len(),
                eq_is_structural::<Lit>(),
                forall|m2: int, n2: int|
                    0 <= m2 < m && 0 <= n2 < reqs_k@.len() ==> !spec_has_pair(
                        pm@,
                        reqs_j@[m2],
                        reqs_k@[n2],
                    ),
            decreases nj - m,
        {
            let nk = reqs_k.len();
            let mut n: usize = 0;
            while n < nk
                invariant
                    nj == reqs_j@.len(),
                    nk == reqs_k@.len(),
                    m < nj,
                    n <= nk,
                    reqs_j@ == self.core@[j as int].reqs@,
                    reqs_k@ == self.core@[k as int].reqs@,
                    eq_is_structural::<Lit>(),
                    forall|n2: int|
                        0 <= n2 < n ==> !spec_has_pair(pm@, reqs_j@[m as int], reqs_k@[n2]),
                decreases nk - n,
            {
                if pm.contains_pair(&reqs_j[m], &reqs_k[n]) {
                    return true;
                }
                n += 1;
            }
            m += 1;
        }
        proof {
            if self.spec_competing(j as int, k as int, pm@) {
                let (p, q) = choose|p: Lit, q: Lit|
                    self.core@[j as int].reqs@.contains(p) && self.core@[k as int].reqs@.contains(q)
                        && spec_has_pair(pm@, p, q);
                let m2 = choose|m2: int| 0 <= m2 < reqs_j@.len() && reqs_j@[m2] == p;
                let n2 = choose|n2: int| 0 <= n2 < reqs_k@.len() && reqs_k@[n2] == q;
                assert(false);
            }
        }
        false
    }

    /// Exact test of `spec_action_mutex`.
    fn check_action_mutex(&self, j: usize, k: usize, pm: &MutexPairs<Lit>) -> (r: bool)
        requires
            j < self.core@.len(),
            k < self.core@.len(),
        ensures
            r == self.spec_action_mutex(j as int, k as int, pm@),
    {
        if self.check_inconsistent(j, k) {
            return true;
        }
        if self.check_interference(j, k) {
            return true;
        }
        self.check_competing(j, k, pm)
    }
}

/// Action mutual exclusion is symmetric in the two actions.
pub proof fn lemma_action_mutex_symmetric<AId, PId>(
    g: PlanGraph<AId, PId>,
    j: int,
    k: int,
    pm: Seq<(Lit, Lit)>,
)
    ensures
        g.spec_action_mutex(j, k, pm) == g.spec_action_mutex(k, j, pm),
{
    assert(g.spec_inconsistent(j, k) == g.spec_inconsistent(k, j)) by {
        if g.spec_inconsistent(j, k) {
            let p = choose|p: Lit|
                g.core@[j].effects@.contains(p) && g.core@[k].effects@.contains(p.spec_negate());
            assert(g.core@[k].effects@.contains(p.spec_negate()) && g.core@[j].effects@.contains(
                p.spec_negate().spec_negate(),
            ));
        }
        if g.spec_inconsistent(k, j) {
            let p = choose|p: Lit|
                g.core@[k].effects@.contains(p) && g.core@[j].effects@.contains(p.spec_negate());
            assert(g.core@[j].effects@.contains(p.spec_negate()) && g.core@[k].effects@.contains(
                p.spec_negate().spec_negate(),
            ));
        }
    }
    assert(g.spec_competing(j, k, pm) == g.spec_competing(k, j, pm)) by {
        if g.spec_competing(j, k, pm) {
            let (p, q) = choose|p: Lit, q: Lit|
                g.core@[j].reqs@.contains(p) && g.core@[k].reqs@.contains(q) && spec_has_pair(
                    pm,
                    p,
                    q,
                );
            assert(spec_has_pair(pm, q, p));
        }
        if g.spec_competing(k, j, pm) {
            let (p, q) = choose|p: Lit, q: Lit|
                g.core@[k].reqs@.contains(p) && g.core@[j].reqs@.contains(q) && spec_has_pair(
                    pm,
                    p,
                    q,
                );
            assert(spec_has_pair(pm, q, p));
        }
    }
}

/// Proposition mutual exclusion is symmetric in the two literals.
pub proof fn lemma_prop_mutex_symmetric<AId, PId>(
    g: PlanGraph<AId, PId>,
    p: Lit,
    q: Lit,
    acts: Seq<usize>,
    am: Seq<(usize, usize)>,
)
    ensures
        g.spec_prop_mutex(p, q, acts, am) == g.spec_prop_mutex(q, p, acts, am),
{
    assert(g.spec_all_achiever_pairs_mutex(p, q, acts, am) == g.spec_all_achiever_pairs_mutex(
        q,
        p,
        acts,
        am,
    )) by {
        if g.spec_all_achiever_pairs_mutex(p, q, acts, am) {
            assert forall|m: int, n: int|
                0 <= m < acts.len() && 0 <= n < acts.len() && g.spec_achieves(acts[m] as int, q)
                    && g.spec_achieves(acts[n] as int, p) implies acts[m] != acts[n]
                && spec_has_pair(am, acts[m], acts[n]) by {
                assert(g.spec_achieves(acts[n] as int, p) && g.spec_achieves(acts[m] as int, q));
                assert(acts[n] != acts[m] && spec_has_pair(am, acts[n], acts[m]));
            }
        }
        if g.spec_all_achiever_pairs_mutex(q, p, acts, am) {
            assert forall|m: int, n: int|
                0 <= m < acts.len() && 0 <= n < acts.len() && g.spec_achieves(acts[m] as int, p)
                    && g.spec_achieves(acts[n] as int, q) implies acts[m] != acts[n]
                && spec_has_pair(am, acts[m], acts[n]) by {
                assert(g.spec_achieves(acts[n] as int, q) && g.spec_achieves(acts[m] as int, p));
                assert(acts[n] != acts[m] && spec_has_pair(am, acts[n], acts[m]));
            }
        }
    }
}

impl<AId, PId> PlanGraph<AId, PId> {
    /// Exact test of `spec_achieves`.
    fn achieves(&self, j: usize, p: &Lit) -> (r: bool)
        requires
            j < self.core@.len(),
        ensures
            r == self.spec_achieves(j as int, *p),
    {
        lits_contains(&self.core[j].effects, p)
    }

    /// Exact test of `spec_all_achiever_pairs_mutex`.
    fn check_all_achievers_mutex(
        &self,
        p: &Lit,
        q: &Lit,
        acts: &Vec<usize>,
        am: &MutexPairs<usize>,
    ) -> (r: bool)
        requires
            forall|m: int| 0 <= m < acts@.len() ==> acts@[m] < self.core@.len(),
        ensures
            r == self.spec_all_achiever_pairs_mutex(*p, *q, acts@, am@),
    {
        proof {
            lemma_usize_eq_structural();
        }
        let na = acts.len();
        let mut m: usize = 0;
        while m < na
            invariant
                na == acts@.len(),
                m <= na,
                eq_is_structural::<usize>(),
                forall|m2: int| 0 <= m2 < acts@.len() ==> acts@[m2] < self.core@.len(),
                forall|m2: int, n2: int|
                    #![trigger acts@[m2], acts@[n2]]
                    0 <= m2 < m && 0 <= n2 < acts@.len() && self.spec_achieves(
                        acts@[m2] as int,
                        *p,
                    ) && self.spec_achieves(acts@[n2] as int, *q) ==> acts@[m2] != acts@[n2]
                        && spec_has_pair(am@, acts@[m2], acts@[n2]),
            decreases na - m,
        {
            if self.achieves(acts[m], p) {
                let mut n: usize = 0;
                while n < na
                    invariant
                        na == acts@.len(),
                        m < na,
                        n <= na,
                        eq_is_structural::<usize>(),
                        forall|m2: int| 0 <= m2 < acts@.len() ==> acts@[m2] < self.core@.len(),
                        self.spec_achieves(acts@[m as int] as int, *p),
                        forall|n2: int|
                            #![trigger acts@[n2]]
                            0 <= n2 < n && self.spec_achieves(acts@[n2] as int, *q) ==> acts@[
                                m as int
                            ] != acts@[n2] && spec_has_pair(am@, acts@[m as int], acts@[n2]),
                    decreases na - n,
                {
                    if self.achieves(acts[n], q) {
                        if acts[m] == acts[n] {
                            proof {
                                assert(!self.spec_all_achiever_pairs_mutex(*p, *q, acts@, am@))
                                    by {
                                    assert(acts@[m as int] == acts@[n as int]);
                                }
                            }
                            return false;
                        }
                        if !am.contains_pair(&acts[m], &acts[n]) {
                            proof {
                                assert(!self.spec_all_achiever_pairs_mutex(*p, *q, acts@, am@))
                                    by {
                                    assert(!spec_has_pair(am@, acts@[m as int], acts@[n as int]));
                                }
                            }
                            return false;
                        }
                    }
                    n += 1;
                }
                proof {
                    assert forall|m2: int, n2: int|
                        0 <= m2 < m + 1 && 0 <= n2 < acts@.len() && self.spec_achieves(
                            acts@[m2] as int,
                            *p,
                        ) && self.spec_achieves(acts@[n2] as int, *q) implies acts@[m2] != acts@[n2]
                        && spec_has_pair(am@, acts@[m2], acts@[n2]) by {
                        if m2 == m {
                            assert(self.spec_achieves(acts@[n2] as int, *q));
                        }
                    }
                }
            } else {
                proof {
                    assert forall|m2: int, n2: int|
                        0 <= m2 < m + 1 && 0 <= n2 < acts@.len() && self.spec_achieves(
                            acts@[m2] as int,
                            *p,
                        ) && self.spec_achieves(acts@[n2] as int, *q) implies acts@[m2] != acts@[n2]
                        && spec_has_pair(am@, acts@[m2], acts@[n2]) by {}
                }
            }
            m += 1;
        }
        true
    }

    /// The indices of the core actions applicable over `props`, ascending.
    fn applicable_set(&self, props: &Vec<Lit>) -> (acts: Vec<usize>)
        ensures
            forall|m: int|
                0 <= m < acts@.len() ==> acts@[m] < self.core@.len() && self.spec_applicable(
                    #[trigger] acts@[m] as int,
                    props@,
                ),
            forall|j: int|
                0 <= j < self.core@.len() && self.spec_applicable(j, props@) ==> acts@.contains(
                    j as usize,
                ),
            forall|m: int, n: int| 0 <= m < n < acts@.len() ==> acts@[m] < acts@[n],
    {
        let n = self.core.len();
        let mut acts: Vec<usize> = Vec::new();
        let mut j: usize = 0;
        while j < n
            invariant
                n == self.core@.len(),
                j <= n,
                forall|m: int|
                    0 <= m < acts@.len() ==> acts@[m] < j && self.spec_applicable(
                        #[trigger] acts@[m] as int,
                        props@,
                    ),
                forall|j2: int|
                    0 <= j2 < j && self.spec_applicable(j2, props@) ==> acts@.contains(j2 as usize),
                forall|m: int, n2: int| 0 <= m < n2 < acts@.len() ==> acts@[m] < acts@[n2],
            decreases n - j,
        {
            if self.is_applicable(j, props) {
                let ghost old_acts = acts@;
                acts.push(j);
                proof {
                    assert(acts@[old_acts.len() as int] == j);
                    assert forall|j2: int|
                        0 <= j2 < j + 1 && self.spec_applicable(j2, props@) implies acts@.contains(
                        j2 as usize,
                    ) by {
                        if j2 < j {
                            let m = choose|m: int|
                                0 <= m < old_acts.len() && old_acts[m] == j2 as usize;
                            assert(acts@[m] == j2 as usize);
                        }
                    }
                }
            }
            j += 1;
        }
        acts
    }

    /// The union of the effects of the actions in `acts`, without
    /// duplicates.
    fn effect_union(&self, acts: &Vec<usize>) -> (props: Vec<Lit>)
        requires
            forall|m: int| 0 <= m < acts@.len() ==> acts@[m] < self.core@.len(),
        ensures
            self.spec_from_acts(acts@, props@),
            forall|n: int, e: int|
                0 <= n < acts@.len() && 0 <= e < self.core@[acts@[n] as int].effects@.len()
                    ==> props@.contains(#[trigger] self.core@[acts@[n] as int].effects@[e]),
            forall|m: int, m2: int| 0 <= m < m2 < props@.len() ==> props@[m] != props@[m2],
    {
        let na = acts.len();
        let mut props: Vec<Lit> = Vec::new();
        let mut n: usize = 0;
        while n < na
            invariant
                na == acts@.len(),
                n <= na,
                forall|m: int| 0 <= m < acts@.len() ==> acts@[m] < self.core@.len(),
                self.spec_from_acts(acts@, props@),
                forall|n2: int, e: int|
                    0 <= n2 < n && 0 <= e < self.core@[acts@[n2] as int].effects@.len()
                        ==> props@.contains(#[trigger] self.core@[acts@[n2] as int].effects@[e]),
                forall|m: int, m2: int| 0 <= m < m2 < props@.len() ==> props@[m] != props@[m2],
            decreases na - n,
        {
            let j = acts[n];
            let ne = self.core[j].effects.len();
            let mut e: usize = 0;
            while e < ne
                invariant
                    na == acts@.len(),
                    n < na,
                    j == acts@[n as int],
                    j < self.core@.len(),
                    ne == self.core@[j as int].effects@.len(),
                    e <= ne,
                    forall|m: int| 0 <= m < acts@.len() ==> acts@[m] < self.core@.len(),
                    self.spec_from_acts(acts@, props@),
                    forall|n2: int, e2: int|
                        0 <= n2 < n && 0 <= e2 < self.core@[acts@[n2] as int].effects@.len()
                            ==> props@.contains(
                            #[trigger] self.core@[acts@[n2] as int].effects@[e2],
                        ),
                    forall|e2: int|
                        0 <= e2 < e ==> props@.contains(
                            #[trigger] self.core@[j as int].effects@[e2],
                        ),
                    forall|m: int, m2: int| 0 <= m < m2 < props@.len() ==> props@[m] != props@[m2],
                decreases ne - e,
            {
                let lit = self.core[j].effects[e];
                let ghost old_props = props@;
                lits_insert(&mut props, lit);
                proof {
                    assert(self.spec_achieves(j as int, lit));
                    assert forall|m: int| 0 <= m < props@.len() implies exists|n2: int|
                        0 <= n2 < acts@.len() && self.spec_achieves(
                            acts@[n2] as int,
                            #[trigger] props@[m],
                        ) by {
                        if m < old_props.len() {
                            assert(old_props[m] == props@[m]);
                        } else {
                            assert(props@[m] == lit);
                            assert(self.spec_achieves(acts@[n as int] as int, props@[m]));
                        }
                    }
                    assert(self.spec_from_acts(acts@, props@));
                    assert forall|n2: int, e2: int|
                        0 <= n2 < n && 0 <= e2 < self.core@[acts@[n2] as int].effects@.len()
                            implies props@.contains(
                        #[trigger] self.core@[acts@[n2] as int].effects@[e2],
                    ) by {
                        assert(old_props.contains(self.core@[acts@[n2] as int].effects@[e2]));
                        let m = choose|m: int|
                            0 <= m < old_props.len() && old_props[m] == self.core@[
                                acts@[n2] as int
                            ].effects@[e2];
                        assert(props@[m] == old_props[m]);
                    }
                    assert forall|e2: int| 0 <= e2 < e + 1 implies props@.contains(
                        #[trigger] self.core@[j as int].effects@[e2],
                    ) by {
                        if e2 < e {
                            let m = choose|m: int|
                                0 <= m < old_props.len() && old_props[m] == self.core@[
                                    j as int
                                ].effects@[e2];
                            assert(props@[m] == old_props[m]);
                        } else {
                            assert(props@.contains(lit));
                        }
                    }
                }
                e += 1;
            }
            n += 1;
        }
        props
    }
}

impl<AId, PId> PlanGraph<AId, PId> {
    /// Every entry of the action conflict table `am` is an ordered pair of
    /// distinct positions of `acts` whose actions `spec_action_mutex`
    /// relates under `pm`.
    pub open spec fn spec_am_entries(
        self,
        am: Seq<(usize, usize)>,
        acts: Seq<usize>,
        pm: Seq<(Lit, Lit)>,
    ) -> bool {
        forall|k: int|
            #![trigger am[k]]
            0 <= k < am.len() ==> exists|m2: int, n2: int|
                0 <= m2 < n2 < acts.len() && am[k] == (acts[m2], acts[n2])
                    && self.spec_action_mutex(acts[m2] as int, acts[n2] as int, pm)
    }

    /// Every entry of the proposition conflict table `pmn` is an ordered
    /// pair of distinct positions of `props` that `spec_prop_mutex` relates.
    pub open spec fn spec_pm_entries(
        self,
        pmn: Seq<(Lit, Lit)>,
        props: Seq<Lit>,
        acts: Seq<usize>,
        am: Seq<(usize, usize)>,
    ) -> bool {
        forall|k: int|
            #![trigger pmn[k]]
            0 <= k < pmn.len() ==> exists|a2: int, b2: int|
                0 <= a2 < b2 < props.len() && pmn[k] == (props[a2], props[b2])
                    && self.spec_prop_mutex(props[a2], props[b2], acts, am)
    }

    /// Whether every effect of every action in `acts` is in `props`.
    pub open spec fn spec_effects_covered(self, acts: Seq<usize>, props: Seq<Lit>) -> bool {
        forall|n: int, e: int|
            0 <= n < acts.len() && 0 <= e < self.core@[acts[n] as int].effects@.len()
                ==> props.contains(#[trigger] self.core@[acts[n] as int].effects@[e])
    }

    /// The conflict relation over the action set `acts`: exactly the
    /// unordered pairs of distinct members that `spec_action_mutex` relates
    /// under the previous proposition layer's relation `pm`.
    fn action_mutex_table(&self, acts: &Vec<usize>, pm: &MutexPairs<Lit>) -> (am: MutexPairs<usize>)
        requires
            forall|m: int| 0 <= m < acts@.len() ==> acts@[m] < self.core@.len(),
            forall|m: int, n: int| 0 <= m < n < acts@.len() ==> acts@[m] < acts@[n],
        ensures
            forall|x: usize, y: usize|
                #![trigger spec_has_pair(am@, x, y)]
                spec_has_pair(am@, x, y) ==> acts@.contains(x) && acts@.contains(y) && x != y
                    && self.spec_action_mutex(x as int, y as int, pm@),
            forall|m: int, n: int|
                #![trigger acts@[m], acts@[n]]
                0 <= m < n < acts@.len() && self.spec_action_mutex(
                    acts@[m] as int,
                    acts@[n] as int,
                    pm@,
                ) ==> spec_has_pair(am@, acts@[m], acts@[n]),
    {
        let na = acts.len();
        let mut am: MutexPairs<usize> = MutexPairs::new();
        let mut m: usize = 0;
        while m < na
            invariant
                na == acts@.len(),
                m <= na,
                forall|m2: int| 0 <= m2 < acts@.len() ==> acts@[m2] < self.core@.len(),
                forall|m2: int, n2: int| 0 <= m2 < n2 < acts@.len() ==> acts@[m2] < acts@[n2],
                self.spec_am_entries(am@, acts@, pm@),
                forall|m2: int, n2: int|
                    #![trigger acts@[m2], acts@[n2]]
                    0 <= m2 < n2 < acts@.len() && m2 < m && self.spec_action_mutex(
                        acts@[m2] as int,
                        acts@[n2] as int,
                        pm@,
                    ) ==> spec_has_pair(am@, acts@[m2], acts@[n2]),
            decreases na - m,
        {
            let mut n: usize = m + 1;
            while n < na
                invariant
                    na == acts@.len(),
                    m < na,
                    m < n,
                    n <= na,
                    forall|m2: int| 0 <= m2 < acts@.len() ==> acts@[m2] < self.core@.len(),
                    forall|m2: int, n2: int| 0 <= m2 < n2 < acts@.len() ==> acts@[m2] < acts@[n2],
                    self.spec_am_entries(am@, acts@, pm@),
                    forall|m2: int, n2: int|
                        #![trigger acts@[m2], acts@[n2]]
                        0 <= m2 < n2 < acts@.len() && m2 < m && self.spec_action_mutex(
                            acts@[m2] as int,
                            acts@[n2] as int,
                            pm@,
                        ) ==> spec_has_pair(am@, acts@[m2], acts@[n2]),
                    forall|n2: int|
                        #![trigger acts@[n2]]
                        m < n2 < n && self.spec_action_mutex(
                            acts@[m as int] as int,
                            acts@[n2] as int,
                            pm@,
                        ) ==> spec_has_pair(am@, acts@[m as int], acts@[n2]),
                decreases na - n,
            {
                if self.check_action_mutex(acts[m], acts[n], pm) {
                    let ghost old_am = am@;
                    am.insert(acts[m], acts[n]);
                    proof {
                        assert(am@[old_am.len() as int] == (acts@[m as int], acts@[n as int]));
                        assert(spec_has_pair(am@, acts@[m as int], acts@[n as int]));
                        assert(self.spec_am_entries(am@, acts@, pm@)) by {
                            assert forall|k: int| 0 <= k < am@.len() implies exists|m2: int, n2: int|
                                0 <= m2 < n2 < acts@.len() && #[trigger] am@[k] == (
                                acts@[m2],
                                acts@[n2],
                                ) && self.spec_action_mutex(
                                    acts@[m2] as int,
                                    acts@[n2] as int,
                                    pm@,
                                ) by {
                                if k < old_am.len() {
                                    assert(am@[k] == old_am[k]);
                                } else {
                                    assert(0 <= m < n < acts@.len() && am@[k] == (
                                    acts@[m as int],
                                    acts@[n as int],
                                    ) && self.spec_action_mutex(
                                        acts@[m as int] as int,
                                        acts@[n as int] as int,
                                        pm@,
                                    ));
                                }
                            }
                        }
                        assert forall|m2: int, n2: int|
                            0 <= m2 < n2 < acts@.len() && m2 < m && self.spec_action_mutex(
                                acts@[m2] as int,
                                acts@[n2] as int,
                                pm@,
                            ) implies spec_has_pair(am@, acts@[m2], acts@[n2]) by {
                            crate::pairset::lemma_has_pair_push(
                                old_am,
                                (acts@[m as int], acts@[n as int]),
                                acts@[m2],
                                acts@[n2],
                            );
                        }
                        assert forall|n2: int|
                            m < n2 < n + 1 && self.spec_action_mutex(
                                acts@[m as int] as int,
                                acts@[n2] as int,
                                pm@,
                            ) implies spec_has_pair(am@, acts@[m as int], acts@[n2]) by {
                            if n2 < n {
                                crate::pairset::lemma_has_pair_push(
                                    old_am,
                                    (acts@[m as int], acts@[n as int]),
                                    acts@[m as int],
                                    acts@[n2],
                                );
                            }
                        }
                    }
                }
                n += 1;
            }
            m += 1;
        }
        proof {
            assert forall|x: usize, y: usize|
                spec_has_pair(am@, x, y) implies acts@.contains(x) && acts@.contains(y) && x != y
                && self.spec_action_mutex(x as int, y as int, pm@) by {
                let k = choose|k: int|
                    0 <= k < am@.len() && (am@[k] == (x, y) || am@[k] == (y, x));
                let (m2, n2) = choose|m2: int, n2: int|
                    0 <= m2 < n2 < acts@.len() && am@[k] == (acts@[m2], acts@[n2])
                        && self.spec_action_mutex(acts@[m2] as int, acts@[n2] as int, pm@);
                if am@[k] == (y, x) {
                    lemma_action_mutex_symmetric(*self, x as int, y as int, pm@);
                }
            }
        }
        am
    }

    /// The conflict relation over the proposition set `props`: exactly the
    /// unordered pairs of distinct members that `spec_prop_mutex` relates,
    /// given the producing action set `acts` with conflict relation `am`.
    fn prop_mutex_table(
        &self,
        props: &Vec<Lit>,
        acts: &Vec<usize>,
        am: &MutexPairs<usize>,
    ) -> (pmn: MutexPairs<Lit>)
        requires
            forall|m: int| 0 <= m < acts@.len() ==> acts@[m] < self.core@.len(),
            forall|a: int, b: int| 0 <= a < b < props@.len() ==> props@[a] != props@[b],
        ensures
            forall|x: Lit, y: Lit|
                #![trigger spec_has_pair(pmn@, x, y)]
                spec_has_pair(pmn@, x, y) ==> props@.contains(x) && props@.contains(y) && x != y
                    && self.spec_prop_mutex(x, y, acts@, am@),
            forall|a: int, b: int|
                #![trigger props@[a], props@[b]]
                0 <= a < b < props@.len() && self.spec_prop_mutex(
                    props@[a],
                    props@[b],
                    acts@,
                    am@,
                ) ==> spec_has_pair(pmn@, props@[a], props@[b]),
    {
        let np = props.len();
        let mut pmn: MutexPairs<Lit> = MutexPairs::new();
        let mut a: usize = 0;
        while a < np
            invariant
                np == props@.len(),
                a <= np,
                forall|m2: int| 0 <= m2 < acts@.len() ==> acts@[m2] < self.core@.len(),
                forall|a2: int, b2: int| 0 <= a2 < b2 < props@.len() ==> props@[a2] != props@[b2],
                self.spec_pm_entries(pmn@, props@, acts@, am@),
                forall|a2: int, b2: int|
                    #![trigger props@[a2], props@[b2]]
                    0 <= a2 < b2 < props@.len() && a2 < a && self.spec_prop_mutex(
                        props@[a2],
                        props@[b2],
                        acts@,
                        am@,
                    ) ==> spec_has_pair(pmn@, props@[a2], props@[b2]),
            decreases np - a,
        {
            let mut b: usize = a + 1;
            while b < np
                invariant
                    np == props@.len(),
                    a < np,
                    a < b,
                    b <= np,
                    forall|m2: int| 0 <= m2 < acts@.len() ==> acts@[m2] < self.core@.len(),
                    forall|a2: int, b2: int|
                        0 <= a2 < b2 < props@.len() ==> props@[a2] != props@[b2],
                    self.spec_pm_entries(pmn@, props@, acts@, am@),
                    forall|a2: int, b2: int|
                        #![trigger props@[a2], props@[b2]]
                        0 <= a2 < b2 < props@.len() && a2 < a && self.spec_prop_mutex(
                            props@[a2],
                            props@[b2],
                            acts@,
                            am@,
                        ) ==> spec_has_pair(pmn@, props@[a2], props@[b2]),
                    forall|b2: int|
                        #![trigger props@[b2]]
                        a < b2 < b && self.spec_prop_mutex(
                            props@[a as int],
                            props@[b2],
                            acts@,
                            am@,
                        ) ==> spec_has_pair(pmn@, props@[a as int], props@[b2]),
                decreases np - b,
            {
                let p = props[a];
                let q = props[b];
                let neg = lit_negated(&p);
                let is_neg = crate::layer::lit_eq(&neg, &q);
                proof {
                    assert(is_neg == p.spec_is_negation(q));
                }
                let mutex = if is_neg {
                    true
                } else {
                    self.check_all_achievers_mutex(&p, &q, acts, am)
                };
                if mutex {
                    let ghost old_pm = pmn@;
                    pmn.insert(p, q);
                    proof {
                        assert(pmn@[old_pm.len() as int] == (props@[a as int], props@[b as int]));
                        assert(spec_has_pair(pmn@, props@[a as int], props@[b as int]));
                        assert(self.spec_pm_entries(pmn@, props@, acts@, am@)) by {
                            assert forall|k: int| 0 <= k < pmn@.len() implies exists|a2: int, b2: int|
                                0 <= a2 < b2 < props@.len() && #[trigger] pmn@[k] == (
                                props@[a2],
                                props@[b2],
                                ) && self.spec_prop_mutex(props@[a2], props@[b2], acts@, am@) by {
                                if k < old_pm.len() {
                                    assert(pmn@[k] == old_pm[k]);
                                } else {
                                    assert(0 <= a < b < props@.len() && pmn@[k] == (
                                    props@[a as int],
                                    props@[b as int],
                                    ) && self.spec_prop_mutex(
                                        props@[a as int],
                                        props@[b as int],
                                        acts@,
                                        am@,
                                    ));
                                }
                            }
                        }
                        assert forall|a2: int, b2: int|
                            0 <= a2 < b2 < props@.len() && a2 < a && self.spec_prop_mutex(
                                props@[a2],
                                props@[b2],
                                acts@,
                                am@,
                            ) implies spec_has_pair(pmn@, props@[a2], props@[b2]) by {
                            crate::pairset::lemma_has_pair_push(
                                old_pm,
                                (props@[a as int], props@[b as int]),
                                props@[a2],
                                props@[b2],
                            );
                        }
                        assert forall|b2: int|
                            a < b2 < b + 1 && self.spec_prop_mutex(
                                props@[a as int],
                                props@[b2],
                                acts@,
                                am@,
                            ) implies spec_has_pair(pmn@, props@[a as int], props@[b2]) by {
                            if b2 < b {
                                crate::pairset::lemma_has_pair_push(
                                    old_pm,
                                    (props@[a as int], props@[b as int]),
                                    props@[a as int],
                                    props@[b2],
                                );
                            }
                        }
                    }
                }
                b += 1;
            }
            a += 1;
        }
        proof {
            assert forall|x: Lit, y: Lit|
                spec_has_pair(pmn@, x, y) implies props@.contains(x) && props@.contains(y) && x
                != y && self.spec_prop_mutex(x, y, acts@, am@) by {
                let k = choose|k: int|
                    0 <= k < pmn@.len() && (pmn@[k] == (x, y) || pmn@[k] == (y, x));
                let (a2, b2) = choose|a2: int, b2: int|
                    0 <= a2 < b2 < props@.len() && pmn@[k] == (props@[a2], props@[b2])
                        && self.spec_prop_mutex(props@[a2], props@[b2], acts@, am@);
                if pmn@[k] == (y, x) {
                    lemma_prop_mutex_symmetric(*self, y, x, acts@, am@);
                }
            }
        }
        pmn
    }
}


/// Proposition layers are monotone: every literal of the last proposition
/// layer is still in the proposition layer that one call of `extend`
/// appends, carried by its persistence action if by nothing else.
#[verifier::spinoff_prover]
pub proof fn lemma_extend_monotone<AId, PId>(pre: PlanGraph<AId, PId>, post: PlanGraph<AId, PId>)
    requires
        pre.wf(),
        PlanGraph::spec_extended(pre, post),
    ensures
        forall|m: int|
            0 <= m < layer_props(pre.layers@[pre.layers@.len() - 1]).len() ==> layer_props(
                post.layers@[post.layers@.len() - 1],
            ).contains(#[trigger] layer_props(pre.layers@[pre.layers@.len() - 1])[m]),
{
    let li = pre.layers@.len() as int;
    let prev = layer_props(pre.layers@[li - 1]);
    let acts = layer_acts(post.layers@[li]);
    let props = layer_props(post.layers@[li + 1]);
    assert forall|m: int| 0 <= m < prev.len() implies props.contains(#[trigger] prev[m]) by {
        let p = prev[m];
        assert(pre.layer_wf(li - 1));
        assert(pre.lit_ok(p));
        let code = 2 * p.id + (if p.negation {
            1int
        } else {
            0int
        });
        let j = pre.universe@.len() + code;
        vstd::std_specs::vec::axiom_spec_len(&pre.core);
        assert(pre.core@.len() <= usize::MAX);
        assert(0 <= code < 2 * pre.prop_ids@.len());
        assert((pre.core@[j]).reqs@ == seq![pre.persist_lit(j - pre.universe@.len())]);
        assert((pre.core@[j]).effects@ == seq![pre.persist_lit(j - pre.universe@.len())]);
        assert(pre.core@[j].reqs@ == seq![pre.persist_lit(code)] && pre.core@[j].effects@ == seq![
            pre.persist_lit(code),
        ]);
        assert(pre.persist_lit(code) == p) by {
            assert(code / 2 == p.id && code % 2 == (if p.negation {
                1int
            } else {
                0int
            }));
        }
        assert(pre.spec_applicable(j, prev)) by {
            assert(pre.core@[j].reqs@[0] == p);
            assert(prev.contains(p));
        }
        assert(acts.contains(j as usize));
        let n = choose|n: int| 0 <= n < acts.len() && acts[n] == j as usize;
        assert(acts[n] as int == j);
        assert(pre.core@[acts[n] as int].effects@[0] == p);
        assert(props.contains(pre.core@[acts[n] as int].effects@[0]));
    }
}

impl<AId, PId> PlanGraph<AId, PId> {
    /// How one call of `extend` relates the new graph to the old: the
    /// domain is unchanged, the existing layers are kept, and one action
    /// layer and one proposition layer are appended whose contents and
    /// conflict relations are exactly the forward-expansion rules applied
    /// to the last proposition layer.
    pub open spec fn spec_extended(pre: Self, post: Self) -> bool {
        let li = pre.layers@.len() as int;
        let prev = layer_props(pre.layers@[li - 1]);
        let prevpm = layer_prop_mutexes(pre.layers@[li - 1]);
        let acts = layer_acts(post.layers@[li]);
        let am = layer_act_mutexes(post.layers@[li]);
        let props = layer_props(post.layers@[li + 1]);
        let pmn = layer_prop_mutexes(post.layers@[li + 1]);
        &&& post.universe == pre.universe
        &&& post.prop_ids == pre.prop_ids
        &&& post.initial == pre.initial
        &&& post.goals == pre.goals
        &&& post.core == pre.core
        &&& post.layers@.len() == li + 2
        &&& forall|i: int| 0 <= i < li ==> post.layers@[i] == pre.layers@[i]
        &&& forall|m: int|
            0 <= m < acts.len() ==> acts[m] < pre.core@.len() && pre.spec_applicable(
                #[trigger] acts[m] as int,
                prev,
            )
        &&& forall|j: int|
            0 <= j < pre.core@.len() && pre.spec_applicable(j, prev) ==> acts.contains(j as usize)
        &&& forall|m: int, n: int| 0 <= m < n < acts.len() ==> acts[m] < acts[n]
        &&& pre.spec_from_acts(acts, props)
        &&& pre.spec_effects_covered(acts, props)
        &&& forall|a: int, b: int| 0 <= a < b < props.len() ==> props[a] != props[b]
        &&& forall|x: usize, y: usize|
            #![trigger spec_has_pair(am, x, y)]
            spec_has_pair(am, x, y) ==> acts.contains(x) && acts.contains(y) && x != y
                && pre.spec_action_mutex(x as int, y as int, prevpm)
        &&& forall|m: int, n: int|
            #![trigger acts[m], acts[n]]
            0 <= m < n < acts.len() && pre.spec_action_mutex(acts[m] as int, acts[n] as int, prevpm)
                ==> spec_has_pair(am, acts[m], acts[n])
        &&& forall|x: Lit, y: Lit|
            #![trigger spec_has_pair(pmn, x, y)]
            spec_has_pair(pmn, x, y) ==> props.contains(x) && props.contains(y) && x != y
                && pre.spec_prop_mutex(x, y, acts, am)
        &&& forall|a: int, b: int|
            #![trigger props[a], props[b]]
            0 <= a < b < props.len() && pre.spec_prop_mutex(props[a], props[b], acts, am)
                ==> spec_has_pair(pmn, props[a], props[b])
    }

    /// Grows the graph by one action layer and one proposition layer, from
    /// the most recent proposition layer: the applicable actions (including
    /// each present literal's persistence action), the union of their
    /// effects, and the two propagated conflict relations.
    pub fn extend(&mut self)
        requires
            old(self).wf(),
        ensures
            final(self).wf(),
            Self::spec_extended(*old(self), *final(self)),
    {
        let li = self.layers.len();
        proof {
            assert(old(self).layer_wf(li - 1));
        }
        let (acts, am) = match &self.layers[li - 1] {
            Layer::Props { props: prev_props, mutexes: prev_pm } => {
                let acts = self.applicable_set(prev_props);
                let am = self.action_mutex_table(&acts, prev_pm);
                (acts, am)
            },
            Layer::Acts { .. } => {
                proof {
                    assert(false);
                }
                unreached()
            },
        };
        let props = self.effect_union(&acts);
        let pmn = self.prop_mutex_table(&props, &acts, &am);
        let ghost pre = *self;
        self.layers.push(Layer::Acts { acts, mutexes: am });
        self.layers.push(Layer::Props { props, mutexes: pmn });
        proof {
            let li2 = li as int;
            assert(self.layers@.len() == li2 + 2);
            assert forall|i: int| 0 <= i < li2 implies self.layers@[i] == pre.layers@[i] by {}
            assert(layer_acts(self.layers@[li2]) == layer_acts(
                Layer::Acts { acts: acts, mutexes: am },
            ));
            assert forall|i: int| 0 <= i < self.layers@.len() implies self.layer_wf(i) by {
                if i < li2 {
                    assert(pre.layer_wf(i));
                } else if i == li2 + 1 {
                    let ps = layer_props(self.layers@[i]);
                    assert forall|m: int| 0 <= m < ps.len() implies self.lit_ok(
                        #[trigger] ps[m],
                    ) by {
                        let n = choose|n: int|
                            0 <= n < acts@.len() && pre.spec_achieves(acts@[n] as int, ps[m]);
                        assert(pre.lits_ok(pre.core@[acts@[n] as int].effects@));
                        let e = choose|e: int|
                            0 <= e < pre.core@[acts@[n] as int].effects@.len() && pre.core@[
                                acts@[n] as int
                            ].effects@[e] == ps[m];
                        assert(pre.lit_ok(pre.core@[acts@[n] as int].effects@[e]));
                    }
                }
            }
            assert(layer_props(self.layers@[0]) == self.initial@);
            assert(self.wf());
            assert(Self::spec_extended(pre, *self));
        }
    }
}

impl<AId, PId> PlanGraph<AId, PId> {
    /// The literal set of the proposition layer at `i`.
    fn props_of(&self, i: usize) -> (r: &Vec<Lit>)
        requires
            self.wf(),
            i < self.layers@.len(),
            i % 2 == 0,
        ensures
            r@ == layer_props(self.layers@[i as int]),
    {
        proof {
            assert(self.layer_wf(i as int));
        }
        match &self.layers[i] {
            Layer::Props { props, .. } => props,
            Layer::Acts { .. } => {
                proof {
                    assert(false);
                }
                unreached()
            },
        }
    }

    /// The conflict relation of the proposition layer at `i`.
    fn prop_mutexes_of(&self, i: usize) -> (r: &MutexPairs<Lit>)
        requires
            self.wf(),
            i < self.layers@.len(),
            i % 2 == 0,
        ensures
            r@ == layer_prop_mutexes(self.layers@[i as int]),
    {
        proof {
            assert(self.layer_wf(i as int));
        }
        match &self.layers[i] {
            Layer::Props { mutexes, .. } => mutexes,
            Layer::Acts { .. } => {
                proof {
                    assert(false);
                }
                unreached()
            },
        }
    }

    /// The action indices of the action layer at `i`.
    pub(crate) fn acts_of(&self, i: usize) -> (r: &Vec<usize>)
        requires
            self.wf(),
            i < self.layers@.len(),
            i % 2 == 1,
        ensures
            r@ == layer_acts(self.layers@[i as int]),
    {
        proof {
            assert(self.layer_wf(i as int));
        }
        match &self.layers[i] {
            Layer::Acts { acts, .. } => acts,
            Layer::Props { .. } => {
                proof {
                    assert(false);
                }
                unreached()
            },
        }
    }

    /// The conflict relation of the action layer at `i`.
    pub(crate) fn act_mutexes_of(&self, i: usize) -> (r: &MutexPairs<usize>)
        requires
            self.wf(),
            i < self.layers@.len(),
            i % 2 == 1,
        ensures
            r@ == layer_act_mutexes(self.layers@[i as int]),
    {
        proof {
            assert(self.layer_wf(i as int));
        }
        match &self.layers[i] {
            Layer::Acts { mutexes, .. } => mutexes,
            Layer::Props { .. } => {
                proof {
                    assert(false);
                }
                unreached()
            },
        }
    }

    /// Whether the goals are attainable at the last proposition layer:
    /// every goal literal is present and no two goals are in conflict
    /// there.
    pub open spec fn spec_goals_met(self) -> bool {
        let last = self.layers@[self.layers@.len() - 1];
        &&& forall|m: int|
            0 <= m < self.goals@.len() ==> layer_props(last).contains(#[trigger] self.goals@[m])
        &&& forall|m: int, n: int|
            #![trigger self.goals@[m], self.goals@[n]]
            0 <= m < self.goals@.len() && 0 <= n < self.goals@.len() ==> !spec_has_pair(
                layer_prop_mutexes(last),
                self.goals@[m],
                self.goals@[n],
            )
    }

    /// Exact test of `spec_goals_met`.
    pub fn goals_met(&self) -> (r: bool)
        requires
            self.wf(),
        ensures
            r == self.spec_goals_met(),
    {
        proof {
            lemma_lit_eq_structural();
        }
        let li = self.layers.len() - 1;
        let props = self.props_of(li);
        if !lits_subset(&self.goals, props) {
            return false;
        }
        let pm = self.prop_mutexes_of(li);
        let ng = self.goals.len();
        let mut m: usize = 0;
        while m < ng
            invariant
                self.wf(),
                ng == self.goals@.len(),
                m <= ng,
                li == self.layers@.len() - 1,
                pm@ == layer_prop_mutexes(self.layers@[li as int]),
                eq_is_structural::<Lit>(),
                forall|m2: int, n2: int|
                    #![trigger self.goals@[m2], self.goals@[n2]]
                    0 <= m2 < m && 0 <= n2 < ng ==> !spec_has_pair(
                        pm@,
                        self.goals@[m2],
                        self.goals@[n2],
                    ),
            decreases ng - m,
        {
            let mut n: usize = 0;
            while n < ng
                invariant
                    self.wf(),
                    ng == self.goals@.len(),
                    m < ng,
                    n <= ng,
                    li == self.layers@.len() - 1,
                    pm@ == layer_prop_mutexes(self.layers@[li as int]),
                    eq_is_structural::<Lit>(),
                    forall|n2: int|
                        #![trigger self.goals@[n2]]
                        0 <= n2 < n ==> !spec_has_pair(pm@, self.goals@[m as int], self.goals@[n2]),
                decreases ng - n,
            {
                if pm.contains_pair(&self.goals[m], &self.goals[n]) {
                    return false;
                }
                n += 1;
            }
            m += 1;
        }
        true
    }

    /// Whether the graph has leveled off: the last two proposition layers
    /// hold the same literal set and the same conflict relation, and the
    /// action layers before each agree too.
    pub open spec fn spec_leveled_off(self) -> bool {
        let ll = self.layers@.len() as int;
        let p1 = layer_props(self.layers@[ll - 1]);
        let p3 = layer_props(self.layers@[ll - 3]);
        let m1 = layer_prop_mutexes(self.layers@[ll - 1]);
        let m3 = layer_prop_mutexes(self.layers@[ll - 3]);
        &&& ll >= 3
        &&& forall|m: int| 0 <= m < p1.len() ==> p3.contains(#[trigger] p1[m])
        &&& forall|m: int| 0 <= m < p3.len() ==> p1.contains(#[trigger] p3[m])
        &&& forall|k: int| 0 <= k < m1.len() ==> spec_has_pair(m3, #[trigger] m1[k].0, m1[k].1)
        &&& forall|k: int| 0 <= k < m3.len() ==> spec_has_pair(m1, #[trigger] m3[k].0, m3[k].1)
        &&& ll >= 5 ==> {
            let a2 = layer_act_mutexes(self.layers@[ll - 2]);
            let a4 = layer_act_mutexes(self.layers@[ll - 4]);
            &&& forall|k: int| 0 <= k < a2.len() ==> spec_has_pair(a4, #[trigger] a2[k].0, a2[k].1)
            &&& forall|k: int| 0 <= k < a4.len() ==> spec_has_pair(a2, #[trigger] a4[k].0, a4[k].1)
        }
    }

    /// Exact test of `spec_leveled_off`.
    pub fn leveled_off(&self) -> (r: bool)
        requires
            self.wf(),
        ensures
            r == self.spec_leveled_off(),
    {
        proof {
            lemma_lit_eq_structural();
            lemma_usize_eq_structural();
        }
        let ll = self.layers.len();
        if ll < 3 {
            return false;
        }
        let same_props = lits_same_set(self.props_of(ll - 1), self.props_of(ll - 3));
        if !same_props {
            return false;
        }
        let same_pm = self.prop_mutexes_of(ll - 1).same_pairs(self.prop_mutexes_of(ll - 3));
        if !same_pm {
            return false;
        }
        if ll >= 5 {
            let same_am = self.act_mutexes_of(ll - 2).same_pairs(self.act_mutexes_of(ll - 4));
            if !same_am {
                return false;
            }
        }
        true
    }
}

impl<AId: Clone, PId: Clone> PlanGraph<AId, PId> {
    /// Whether the action value `a` stands for core action `j`: for a
    /// domain action, a clone of the universe entry; for a persistence
    /// entry, the persistence action over the literal's identifier.
    pub open spec fn spec_represents(self, a: Action<AId, PId>, j: int) -> bool {
        if j < self.universe@.len() {
            &&& cloned(self.universe@[j].id, a.id)
            &&& a.reqs@.len() == self.universe@[j].reqs@.len()
            &&& forall|e: int|
                0 <= e < a.reqs@.len() ==> cloned(
                    self.universe@[j].reqs@[e],
                    #[trigger] a.reqs@[e],
                )
            &&& a.effects@.len() == self.universe@[j].effects@.len()
            &&& forall|e: int|
                0 <= e < a.effects@.len() ==> cloned(
                    self.universe@[j].effects@[e],
                    #[trigger] a.effects@[e],
                )
        } else {
            let lit = self.persist_lit(j - self.universe@.len());
            &&& a.id matches ActionKind::Persist(p) && cloned(self.prop_ids@[lit.id as int], p.id)
                && p.negation == lit.negation
            &&& a.reqs@.len() == 1 && cloned(self.prop_ids@[lit.id as int], a.reqs@[0].id)
                && a.reqs@[0].negation == lit.negation
            &&& a.effects@.len() == 1 && cloned(self.prop_ids@[lit.id as int], a.effects@[0].id)
                && a.effects@[0].negation == lit.negation
        }
    }

    /// The action value standing for core action `j`.
    pub(crate) fn action_value(&self, j: usize) -> (a: Action<AId, PId>)
        requires
            self.wf(),
            j < self.core@.len(),
        ensures
            self.spec_represents(a, j as int),
    {
        if j < self.universe.len() {
            self.universe[j].clone()
        } else {
            let k = j - self.universe.len();
            let idn = k / 2;
            let neg = k % 2 == 1;
            proof {
                assert(k < 2 * self.prop_ids@.len());
                assert(idn < self.prop_ids@.len());
            }
            let name = Proposition { id: self.prop_ids[idn].clone(), negation: neg };
            let req = Proposition { id: self.prop_ids[idn].clone(), negation: neg };
            let eff = Proposition { id: self.prop_ids[idn].clone(), negation: neg };
            Action { id: ActionKind::Persist(name), reqs: vec![req], effects: vec![eff] }
        }
    }

    /// The action values at the action layer `idx`, in layer order, or the
    /// lookup error naming what was wrong with the request.
    pub fn actions_at_layer(&self, idx: usize) -> (r: Result<
        Vec<Action<AId, PId>>,
        GraphplanError,
    >)
        requires
            self.wf(),
        ensures
            idx >= self.layers@.len() ==> r == Result::<
                Vec<Action<AId, PId>>,
                GraphplanError,
            >::Err(GraphplanError::LayerOutOfRange),
            idx < self.layers@.len() && idx % 2 == 0 ==> r == Result::<
                Vec<Action<AId, PId>>,
                GraphplanError,
            >::Err(GraphplanError::NotAnActionLayer),
            idx < self.layers@.len() && idx % 2 == 1 ==> (r matches Result::Ok(v) && v@.len()
                == layer_acts(self.layers@[idx as int]).len() && (forall|m: int|
                0 <= m < v@.len() ==> self.spec_represents(
                    #[trigger] v@[m],
                    layer_acts(self.layers@[idx as int])[m] as int,
                ))),
    {
        if idx >= self.layers.len() {
            return Err(GraphplanError::LayerOutOfRange);
        }
        if idx % 2 == 0 {
            return Err(GraphplanError::NotAnActionLayer);
        }
        let acts = self.acts_of(idx);
        let na = acts.len();
        let mut v: Vec<Action<AId, PId>> = Vec::new();
        let mut m: usize = 0;
        while m < na
            invariant
                self.wf(),
                idx < self.layers@.len(),
                idx % 2 == 1,
                acts@ == layer_acts(self.layers@[idx as int]),
                na == acts@.len(),
                m <= na,
                v@.len() == m,
                forall|m2: int|
                    0 <= m2 < m ==> self.spec_represents(#[trigger] v@[m2], acts@[m2] as int),
            decreases na - m,
        {
            proof {
                assert(self.layer_wf(idx as int));
            }
            let a = self.action_value(acts[m]);
            v.push(a);
            m += 1;
        }
        Ok(v)
    }

    /// Drops every persistence action from each group of `plan`, keeping
    /// the domain actions in order: the form in which a plan is reported.
    pub fn format_plan(plan: Solution<AId, PId>) -> (r: Solution<AId, PId>)
        ensures
            r@.len() == plan@.len(),
            forall|k: int|
                0 <= k < plan@.len() ==> #[trigger] r@[k]@ == plan@[k]@.filter(
                    |a: Action<AId, PId>| !(a.id matches ActionKind::Persist(_)),
                ),
    {
        let ghost orig = plan@;
        let mut plan = plan;
        let mut r: Solution<AId, PId> = Vec::new();
        while plan.len() > 0
            invariant
                r@.len() + plan@.len() == orig.len(),
                forall|k: int| 0 <= k < plan@.len() ==> plan@[k] == orig[r@.len() + k],
                forall|k: int|
                    0 <= k < r@.len() ==> #[trigger] r@[k]@ == orig[k]@.filter(
                        |a: Action<AId, PId>| !(a.id matches ActionKind::Persist(_)),
                    ),
            decreases plan@.len(),
        {
            let group = plan.remove(0);
            let ghost gorig = group@;
            let mut group = group;
            let mut out: Vec<Action<AId, PId>> = Vec::new();
            while group.len() > 0
                invariant
                    out@ =~= gorig.subrange(0, gorig.len() - group@.len()).filter(
                        |a: Action<AId, PId>| !(a.id matches ActionKind::Persist(_)),
                    ),
                    group@.len() <= gorig.len(),
                    forall|k: int|
                        0 <= k < group@.len() ==> group@[k] == gorig[gorig.len() - group@.len()
                            + k],
                decreases group@.len(),
            {
                let ghost done = gorig.len() - group@.len();
                let ghost pre_out = out@;
                let a = group.remove(0);
                proof {
                    assert(a == gorig[done]);
                    assert(gorig.subrange(0, done + 1).drop_last() =~= gorig.subrange(0, done));
                    assert(gorig.subrange(0, done + 1).last() == gorig[done]);
                    reveal_with_fuel(Seq::filter, 2);
                }
                if !a.is_persist() {
                    out.push(a);
                    proof {
                        assert(out@ =~= gorig.subrange(0, done + 1).filter(
                            |a: Action<AId, PId>| !(a.id matches ActionKind::Persist(_)),
                        ));
                    }
                } else {
                    proof {
                        assert(out@ =~= gorig.subrange(0, done + 1).filter(
                            |a: Action<AId, PId>| !(a.id matches ActionKind::Persist(_)),
                        ));
                    }
                }
            }
            proof {
                assert(gorig.subrange(0, gorig.len() as int) =~= gorig);
            }
            r.push(out);
        }
        r
    }
}

/// Whether the literal `l` stands for the proposition `p` under the
/// identifier table `tab`.
pub open spec fn spec_lit_stands_for<PId>(tab: Seq<PId>, l: Lit, p: Proposition<PId>) -> bool {
    &&& l.id < tab.len()
    &&& tab[l.id as int] == p.id
    &&& l.negation == p.negation
}

/// Interns a proposition's identifier: finds it in the table or appends it,
/// and returns the corresponding literal.  The table only grows, and what
/// is already in it stays where it is; for exact identifier types the
/// literal stands for the given proposition.
fn intern<PId: Clone + PartialEq>(prop_ids: &mut Vec<PId>, p: &Proposition<PId>) -> (lit: Lit)
    ensures
        old(prop_ids)@.len() <= final(prop_ids)@.len(),
        lit.id < final(prop_ids)@.len(),
        forall|i: int| 0 <= i < old(prop_ids)@.len() ==> final(prop_ids)@[i] == old(prop_ids)@[i],
        lit.negation == p.negation,
        (eq_is_structural::<PId>() && clone_is_exact::<PId>()) ==> spec_lit_stands_for(
            final(prop_ids)@,
            lit,
            *p,
        ),
{
    let n = prop_ids.len();
    let mut k: usize = 0;
    while k < n
        invariant
            n == prop_ids@.len(),
            k <= n,
        decreases n - k,
    {
        if prop_ids[k] == p.id {
            proof {
                if eq_is_structural::<PId>() {
                    assert(prop_ids@[k as int] == p.id);
                }
            }
            return Proposition { id: k, negation: p.negation };
        }
        k += 1;
    }
    let ghost before = prop_ids@;
    prop_ids.push(p.id.clone());
    proof {
        if clone_is_exact::<PId>() {
            assert(cloned(p.id, prop_ids@[before.len() as int]));
            assert(prop_ids@[before.len() as int] == p.id);
        }
    }
    Proposition { id: n, negation: p.negation }
}

/// Interns a whole proposition set into a duplicate-free literal set.
fn intern_lits<PId: Clone + PartialEq>(prop_ids: &mut Vec<PId>, props: &Vec<Proposition<PId>>) -> (r:
    Vec<Lit>)
    ensures
        old(prop_ids)@.len() <= final(prop_ids)@.len(),
        forall|i: int| 0 <= i < old(prop_ids)@.len() ==> final(prop_ids)@[i] == old(prop_ids)@[i],
        forall|m: int| 0 <= m < r@.len() ==> (#[trigger] r@[m]).id < final(prop_ids)@.len(),
        forall|m: int, m2: int| 0 <= m < m2 < r@.len() ==> r@[m] != r@[m2],
        props@.len() > 0 ==> r@.len() > 0,
{
    let np = props.len();
    let mut r: Vec<Lit> = Vec::new();
    let mut m: usize = 0;
    while m < np
        invariant
            np == props@.len(),
            m <= np,
            old(prop_ids)@.len() <= prop_ids@.len(),
            forall|i: int|
                0 <= i < old(prop_ids)@.len() ==> prop_ids@[i] == old(prop_ids)@[i],
            forall|m2: int| 0 <= m2 < r@.len() ==> (#[trigger] r@[m2]).id < prop_ids@.len(),
            forall|m2: int, m3: int| 0 <= m2 < m3 < r@.len() ==> r@[m2] != r@[m3],
            m > 0 && np > 0 ==> r@.len() > 0,
        decreases np - m,
    {
        let lit = intern(prop_ids, &props[m]);
        let ghost old_r = r@;
        lits_insert(&mut r, lit);
        proof {
            assert forall|m2: int, m3: int| 0 <= m2 < m3 < r@.len() implies r@[m2] != r@[m3] by {
                if m3 < old_r.len() {
                    assert(r@[m2] == old_r[m2] && r@[m3] == old_r[m3]);
                } else if r@.len() > old_r.len() {
                    assert(!old_r.contains(lit));
                    assert(r@[m3] == lit && r@[m2] == old_r[m2]);
                }
            }
        }
        m += 1;
    }
    r
}

/// A copy of a literal set, element for element.
pub(crate) fn copy_lits(v: &Vec<Lit>) -> (r: Vec<Lit>)
    ensures
        r@ == v@,
{
    let n = v.len();
    let mut r: Vec<Lit> = Vec::new();
    let mut k: usize = 0;
    while k < n
        invariant
            n == v@.len(),
            k <= n,
            r@ =~= v@.subrange(0, k as int),
        decreases n - k,
    {
        r.push(v[k]);
        k += 1;
    }
    proof {
        assert(v@.subrange(0, n as int) =~= v@);
    }
    r
}

impl<
    AId: Clone + PartialEq + PartialEqSpec + PartialOrd,
    PId: Clone + PartialEq + PartialEqSpec,
> PlanGraph<AId, PId> {
    /// Builds the graph for a domain: sorts and deduplicates the action
    /// universe, interns every proposition identifier, lays down the core
    /// action table (domain actions first, then one persistence action per
    /// literal), and seeds layer 0 with the initial literals and an empty
    /// conflict relation.
    pub fn new(
        initial: Vec<Proposition<PId>>,
        goal: Vec<Proposition<PId>>,
        actions: Vec<Action<AId, PId>>,
    ) -> (g: Self)
        requires
            goal@.len() > 0,
        ensures
            g.wf(),
            forall|m: int|
                0 <= m < g.universe@.len() ==> actions@.contains(#[trigger] g.universe@[m]),
    {
        let universe = crate::action::sorted_action_set(actions);
        let mut prop_ids: Vec<PId> = Vec::new();
        let initial_l = intern_lits(&mut prop_ids, &initial);
        let goals_l = intern_lits(&mut prop_ids, &goal);
        proof {
            assert(forall|m: int|
                0 <= m < initial_l@.len() ==> (#[trigger] initial_l@[m]).id < prop_ids@.len());
        }
        let mut core: Vec<LitAction> = Vec::new();
        let nu = universe.len();
        let mut j: usize = 0;
        while j < nu
            invariant
                nu == universe@.len(),
                j <= nu,
                core@.len() == j,
                forall|jj: int, e: int|
                    0 <= jj < core@.len() && 0 <= e < core@[jj].reqs@.len() ==> (
                    #[trigger] core@[jj].reqs@[e]).id < prop_ids@.len(),
                forall|jj: int, e: int|
                    0 <= jj < core@.len() && 0 <= e < core@[jj].effects@.len() ==> (
                    #[trigger] core@[jj].effects@[e]).id < prop_ids@.len(),
                forall|m: int|
                    0 <= m < initial_l@.len() ==> (#[trigger] initial_l@[m]).id < prop_ids@.len(),
                forall|m: int|
                    0 <= m < goals_l@.len() ==> (#[trigger] goals_l@[m]).id < prop_ids@.len(),
            decreases nu - j,
        {
            let reqs_l = intern_lits(&mut prop_ids, &universe[j].reqs);
            let effs_l = intern_lits(&mut prop_ids, &universe[j].effects);
            core.push(LitAction { reqs: reqs_l, effects: effs_l });
            j += 1;
        }
        let n_ids = prop_ids.len();
        let ghost core_user = core@;
        proof {
            assert(forall|jj: int, e: int|
                0 <= jj < core_user.len() && 0 <= e < core_user[jj].reqs@.len() ==> (
                #[trigger] core_user[jj].reqs@[e]).id < prop_ids@.len());
            assert(forall|jj: int, e: int|
                0 <= jj < core_user.len() && 0 <= e < core_user[jj].effects@.len() ==> (
                #[trigger] core_user[jj].effects@[e]).id < prop_ids@.len());
        }
        let mut k: usize = 0;
        while k < n_ids
            invariant
                n_ids == prop_ids@.len(),
                k <= n_ids,
                core@.len() == core_user.len() + 2 * k,
                core@.subrange(0, core_user.len() as int) =~= core_user,
                forall|kk: int|
                    0 <= kk < 2 * k ==> #[trigger] core@[core_user.len() + kk].reqs@ == seq![
                        Proposition { id: (kk / 2) as usize, negation: kk % 2 == 1 },
                    ] && core@[core_user.len() + kk].effects@ == seq![
                        Proposition { id: (kk / 2) as usize, negation: kk % 2 == 1 },
                    ],
            decreases n_ids - k,
        {
            let pos_lit = Proposition { id: k, negation: false };
            let neg_lit = Proposition { id: k, negation: true };
            let ghost before = core@;
            core.push(LitAction { reqs: vec![pos_lit], effects: vec![pos_lit] });
            core.push(LitAction { reqs: vec![neg_lit], effects: vec![neg_lit] });
            proof {
                assert(core@.subrange(0, core_user.len() as int) =~= core_user);
                assert((2 * k as int) / 2 == k as int && (2 * k as int) % 2 == 0);
                assert((2 * k as int + 1) / 2 == k as int && (2 * k as int + 1) % 2 == 1);
                assert forall|kk: int|
                    0 <= kk < 2 * (k + 1) implies #[trigger] core@[core_user.len() + kk].reqs@
                    == seq![Proposition { id: (kk / 2) as usize, negation: kk % 2 == 1 }]
                    && core@[core_user.len() + kk].effects@ == seq![
                    Proposition { id: (kk / 2) as usize, negation: kk % 2 == 1 },
                ] by {
                    if kk < 2 * k {
                        assert(core@[core_user.len() + kk] == before[core_user.len() + kk]);
                    } else if kk == 2 * k {
                        assert(core@[core_user.len() + kk].reqs@ == seq![pos_lit]);
                        assert(kk / 2 == k as int && kk % 2 == 0);
                    } else {
                        assert(core@[core_user.len() + kk].reqs@ == seq![neg_lit]);
                        assert(kk / 2 == k as int && kk % 2 == 1);
                    }
                }
            }
            k += 1;
        }
        let ghost full_core = core@;
        proof {
            assert(core_user.len() == nu);
            assert(full_core.len() == core_user.len() + 2 * n_ids);
            assert forall|kk: int|
                0 <= kk < 2 * n_ids implies (#[trigger] full_core[core_user.len() + kk]).reqs@
                == seq![Proposition { id: (kk / 2) as usize, negation: kk % 2 == 1 }]
                && full_core[core_user.len() + kk].effects@ == seq![
                Proposition { id: (kk / 2) as usize, negation: kk % 2 == 1 },
            ] by {
                assert(core@[core_user.len() + kk].reqs@ == seq![
                    Proposition { id: (kk / 2) as usize, negation: kk % 2 == 1 },
                ]);
                assert(core@[core_user.len() + kk].effects@ == seq![
                    Proposition { id: (kk / 2) as usize, negation: kk % 2 == 1 },
                ]);
            }
        }
        let initial_copy = copy_lits(&initial_l);
        let layers = vec![Layer::Props { props: initial_copy, mutexes: MutexPairs::new() }];
        let g = PlanGraph {
            universe,
            prop_ids,
            initial: initial_l,
            goals: goals_l,
            core,
            layers,
        };
        proof {
            assert(g.layers@.len() == 1);
            assert(layer_props(g.layers@[0]) == g.initial@);
            assert forall|i: int| 0 <= i < g.layers@.len() implies g.layer_wf(i) by {
                assert(i == 0);
            }
            assert forall|jj: int| 0 <= jj < g.core@.len() implies g.lits_ok(
                #[trigger] g.core@[jj].reqs@,
            ) && g.lits_ok(g.core@[jj].effects@) by {
                if jj < core_user.len() {
                    assert(g.core@[jj] == core_user[jj]);
                } else {
                    let kk = jj - core_user.len();
                    let lit = Proposition { id: (kk / 2) as usize, negation: kk % 2 == 1 };
                    assert(g.core@ == full_core);
                    assert((full_core[core_user.len() + kk]).reqs@ == seq![lit] && (full_core[
                        core_user.len() + kk
                    ]).effects@ == seq![lit]);
                    assert(g.core@[jj].reqs@ == seq![lit] && g.core@[jj].effects@ == seq![lit]);
                    assert(kk / 2 < n_ids);
                    assert forall|e: int| 0 <= e < g.core@[jj].reqs@.len() implies g.lit_ok(
                        #[trigger] g.core@[jj].reqs@[e],
                    ) by {
                        assert(g.core@[jj].reqs@[e] == lit);
                    }
                    assert forall|e: int| 0 <= e < g.core@[jj].effects@.len() implies g.lit_ok(
                        #[trigger] g.core@[jj].effects@[e],
                    ) by {
                        assert(g.core@[jj].effects@[e] == lit);
                    }
                }
            }
            assert(g.core@.len() == g.universe@.len() + 2 * g.prop_ids@.len());
            assert forall|jj: int|
                g.universe@.len() <= jj < g.core@.len() implies (#[trigger] g.core@[jj]).reqs@
                == seq![g.persist_lit(jj - g.universe@.len())] && g.core@[jj].effects@ == seq![
                g.persist_lit(jj - g.universe@.len()),
            ] by {
                assert(g.universe@.len() == core_user.len());
                let kk = jj - core_user.len();
                assert(0 <= kk < 2 * n_ids);
                assert((full_core[core_user.len() + kk]).reqs@ == seq![
                    Proposition { id: (kk / 2) as usize, negation: kk % 2 == 1 },
                ]);
                assert((full_core[core_user.len() + kk]).effects@ == seq![
                    Proposition { id: (kk / 2) as usize, negation: kk % 2 == 1 },
                ]);
                assert(g.core@[jj] == full_core[core_user.len() + kk]);
                assert(g.persist_lit(kk) == Proposition {
                    id: (kk / 2) as usize,
                    negation: kk % 2 == 1,
                });
            }
            assert(g.lits_ok(g.initial@));
            assert(g.lits_ok(g.goals@));
            assert(g.goals@.len() >= 1);
            assert(forall|j: int|
                g.universe@.len() <= j < g.core@.len() ==> (#[trigger] g.core@[j]).reqs@ == seq![
                    g.persist_lit(j - g.universe@.len()),
                ] && g.core@[j].effects@ == seq![g.persist_lit(j - g.universe@.len())]);
            assert(g.wf());
        }
        g
    }
}

impl<AId: Clone, PId: Clone> PlanGraph<AId, PId> {
    /// The outer fixed-point search: while the goals are not yet jointly
    /// attainable at the last proposition layer, or extraction fails
    /// there, grow the graph; stop with a definitive "no plan" once the
    /// graph has leveled off without a successful extraction.  The loop
    /// also stops, reporting no plan, if the layer count were ever to
    /// approach the address space's end — the mutex relaxation reaches its
    /// fixed point long before that bound could bind.
    pub fn search_with<S: crate::solver::GraphPlanSolver<AId, PId>>(&mut self, solver: &S) -> (r:
        Option<Solution<AId, PId>>)
        requires
            old(self).wf(),
        ensures
            final(self).wf(),
            (r matches Some(plan) ==> plan@.len() == (final(self).layers@.len() - 1) / 2 && (
            exists|cp: Seq<Vec<usize>>|
                crate::solver::plan_represents(*final(self), plan@, cp)
                    && crate::solver::core_plan_sound_for(*final(self), cp, final(self).goals@))),
            (r is None ==> final(self).spec_leveled_off() || final(self).layers@.len()
                >= usize::MAX - 2),
    {
        loop
            invariant
                self.wf(),
            decreases usize::MAX - self.layers.len(),
        {
            if self.layers.len() >= 3 && self.goals_met() {
                match solver.search(self) {
                    Option::Some(plan) => {
                        return Some(plan);
                    },
                    Option::None => {},
                }
            }
            if self.leveled_off() {
                return None;
            }
            if self.layers.len() >= usize::MAX - 2 {
                return None;
            }
            self.extend();
        }
    }
}

} // verus!
