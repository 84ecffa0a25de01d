use vstd::prelude::*;
use crate::pairset::{MutexPairs, eq_is_structural, spec_has_pair};
use vstd::std_specs::cmp::PartialEqSpec;
use crate::action::Action;
use crate::layer::{Lit, lits_contains, lits_insert};
use crate::plangraph::{PlanGraph, Solution, layer_acts, layer_act_mutexes, layer_props};
use crate::proposition::Proposition;

verus! {

/// `b` to the power `e`.
pub open spec fn pow_int(b: int, e: nat) -> int
    decreases e,
{
    if e == 0 {
        1
    } else {
        b * pow_int(b, (e - 1) as nat)
    }
}

/// The value of the digit sequence `s` read as a base-`b` number, most
/// significant digit first.
pub open spec fn seq_pos(s: Seq<int>, b: int) -> int
    decreases s.len(),
{
    if s.len() == 0 {
        0
    } else {
        s[0] * pow_int(b, (s.len() - 1) as nat) + seq_pos(s.subrange(1, s.len() as int), b)
    }
}

/// A base-`b` number with digits in `[0, cap]`, `cap + 1 <= b`, is
/// non-negative and below `b` to the length.
pub proof fn lemma_seq_pos_bound(s: Seq<int>, b: int, cap: int)
    requires
        0 <= cap,
        cap + 1 <= b,
        forall|j: int| 0 <= j < s.len() ==> 0 <= #[trigger] s[j] <= cap,
    ensures
        0 <= seq_pos(s, b) < pow_int(b, s.len() as nat),
    decreases s.len(),
{
    if s.len() == 0 {
    } else {
        let tail = s.subrange(1, s.len() as int);
        lemma_seq_pos_bound(tail, b, cap);
        let p = pow_int(b, (s.len() - 1) as nat);
        assert(p == pow_int(b, tail.len() as nat));
        assert(p >= 1) by {
            lemma_pow_pos(b, (s.len() - 1) as nat);
        }
        assert(0 <= s[0] * p) by (nonlinear_arith)
            requires
                0 <= s[0],
                1 <= p,
        ;
        assert(s[0] * p + p <= cap * p + p) by (nonlinear_arith)
            requires
                s[0] <= cap,
                1 <= p,
        ;
        assert((cap + 1) * p <= b * p) by (nonlinear_arith)
            requires
                cap + 1 <= b,
                1 <= p,
        ;
        assert(cap * p + p == (cap + 1) * p) by (nonlinear_arith);
        assert(b * p == pow_int(b, s.len() as nat));
    }
}

/// A positive base raised to any power is positive.
pub proof fn lemma_pow_pos(b: int, e: nat)
    requires
        b >= 1,
    ensures
        pow_int(b, e) >= 1,
    decreases e,
{
    if e > 0 {
        lemma_pow_pos(b, (e - 1) as nat);
        assert(b * pow_int(b, (e - 1) as nat) >= 1) by (nonlinear_arith)
            requires
                b >= 1,
                pow_int(b, (e - 1) as nat) >= 1,
        ;
    }
}

/// Base-`b` numbers compare lexicographically: if the digits agree before
/// position `i` and the digit at `i` goes down, the value goes down,
/// whatever the later digits do within their range.
pub proof fn lemma_seq_pos_lex(s1: Seq<int>, s2: Seq<int>, b: int, cap: int, i: int)
    requires
        s1.len() == s2.len(),
        0 <= cap,
        cap + 2 <= b,
        forall|j: int| 0 <= j < s1.len() ==> 0 <= #[trigger] s1[j] <= cap,
        forall|j: int| 0 <= j < s2.len() ==> 0 <= #[trigger] s2[j] <= cap,
        0 <= i < s1.len(),
        forall|j: int| 0 <= j < i ==> s1[j] == s2[j],
        s2[i] < s1[i],
    ensures
        seq_pos(s2, b) < seq_pos(s1, b),
    decreases i,
{
    let t1 = s1.subrange(1, s1.len() as int);
    let t2 = s2.subrange(1, s2.len() as int);
    if i == 0 {
        let p = pow_int(b, (s1.len() - 1) as nat);
        lemma_pow_pos(b, (s1.len() - 1) as nat);
        lemma_seq_pos_bound(t1, b, cap);
        lemma_seq_pos_bound(t2, b, cap);
        assert(p == pow_int(b, t1.len() as nat));
        assert(seq_pos(t2, b) < p);
        assert(seq_pos(t1, b) >= 0);
        assert(s2[0] * p + p <= s1[0] * p) by (nonlinear_arith)
            requires
                s2[0] + 1 <= s1[0],
                1 <= p,
        ;
    } else {
        lemma_seq_pos_lex(t1, t2, b, cap, i - 1);
        assert forall|j: int| 0 <= j < t1.len() implies 0 <= #[trigger] t1[j] <= cap by {
            assert(t1[j] == s1[j + 1]);
        }
        assert forall|j: int| 0 <= j < t2.len() implies 0 <= #[trigger] t2[j] <= cap by {
            assert(t2[j] == s2[j + 1]);
        }
        assert(s1[0] == s2[0]);
    }
}

/// A strictly ascending sequence has each entry at least its index.
pub proof fn lemma_ascending_index(s: Seq<usize>, k: int)
    requires
        forall|m: int, n: int| 0 <= m < n < s.len() ==> s[m] < s[n],
        0 <= k < s.len(),
    ensures
        s[k] >= k,
    decreases k,
{
    if k > 0 {
        lemma_ascending_index(s, k - 1);
        assert(s[k - 1] < s[k]);
    }
}

/// A strictly ascending sequence of values below `n` has length at most
/// `n`.
pub proof fn lemma_ascending_len(s: Seq<usize>, n: int)
    requires
        0 <= n,
        forall|m: int, n2: int| 0 <= m < n2 < s.len() ==> s[m] < s[n2],
        forall|m: int| 0 <= m < s.len() ==> s[m] < n,
    ensures
        s.len() <= n,
{
    if s.len() > 0 {
        lemma_ascending_index(s, s.len() - 1);
        assert(s[s.len() - 1] < n);
    }
}

/// The state of the lazy backtracking enumeration of action combinations:
/// which candidate action satisfies which goal (`sat`), the conflict
/// relation among candidates, the per-goal memo of not-yet-tried candidates
/// (`attempts`), the current assignment (`accum`), and whether the last
/// step of the enumeration yielded a full assignment.
pub struct CombinationSearch {
    pub n_actions: usize,
    pub sat: Vec<Vec<bool>>,
    pub mutexes: Option<MutexPairs<usize>>,
    pub attempts: Vec<Option<Vec<usize>>>,
    pub accum: Vec<Option<usize>>,
    pub goals_met: bool,
}

impl CombinationSearch {
    pub open spec fn n_goals(self) -> int {
        self.sat@.len() as int
    }

    pub open spec fn dims_ok(self) -> bool {
        &&& forall|i: int|
            0 <= i < self.sat@.len() ==> (#[trigger] self.sat@[i])@.len() == self.n_actions
        &&& self.attempts@.len() == self.sat@.len()
        &&& self.accum@.len() == self.sat@.len()
    }

    /// Whether choosing both `a` and `b` is forbidden.  With no conflict
    /// relation at hand nothing is forbidden.
    pub open spec fn spec_conflict(self, a: usize, b: usize) -> bool {
        match self.mutexes {
            Option::Some(m) => spec_has_pair(m@, a, b),
            Option::None => false,
        }
    }

    /// Whether `b` is assigned to some goal before `i`.
    pub open spec fn spec_assigned_below(self, i: int, b: usize) -> bool {
        exists|j: int| 0 <= j < i && self.accum@[j] == Some(b)
    }

    /// Whether `a` is a valid candidate for goal `i`: it satisfies the
    /// goal and conflicts with no action already assigned to an earlier
    /// goal.
    pub open spec fn cand_ok(self, i: int, a: usize) -> bool {
        &&& a < self.n_actions
        &&& self.sat@[i]@[a as int]
        &&& forall|j: int|
            0 <= j < i ==> ((#[trigger] self.accum@[j]) matches Some(b) ==> !self.spec_conflict(
                a,
                b,
            ))
    }

    /// A stored candidate list for goal `i`: valid candidates, strictly
    /// ascending.
    pub open spec fn list_ok(self, i: int, s: Seq<usize>) -> bool {
        &&& forall|m: int| 0 <= m < s.len() ==> self.cand_ok(i, #[trigger] s[m])
        &&& forall|m: int, n: int| 0 <= m < n < s.len() ==> s[m] < s[n]
    }

    pub open spec fn attempts_ok(self) -> bool {
        forall|i: int|
            #![trigger self.attempts@[i]]
            0 <= i < self.attempts@.len() ==> (self.attempts@[i] matches Some(s)
                ==> self.list_ok(i, s@))
    }

    pub open spec fn assigned_ok(self, i: int) -> bool {
        self.accum@[i] matches Some(a) && a < self.n_actions && self.sat@[i]@[a as int]
    }

    /// The enumeration's resting shape: memo lists exist exactly below
    /// `h`, the assignment below `h` is valid and conflict-free.
    pub open spec fn prefix_ok(self, h: int) -> bool {
        &&& forall|i: int|
            #![trigger self.attempts@[i]]
            0 <= i < self.n_goals() ==> (self.attempts@[i] matches Some(_) <==> i < h)
        &&& forall|i: int| 0 <= i < h ==> #[trigger] self.assigned_ok(i)
        &&& forall|i: int, j: int|
            #![trigger self.accum@[i], self.accum@[j]]
            0 <= i < j < h ==> !self.spec_conflict(
                self.accum@[i].unwrap(),
                self.accum@[j].unwrap(),
            )
    }

    /// The shape after the enumeration has run dry: an empty memo at the
    /// first goal records that nothing is left to try.
    pub open spec fn stalled_ok(self) -> bool {
        &&& self.n_goals() >= 1
        &&& self.attempts@[0] matches Some(s) && s@.len() == 0
        &&& forall|i: int| 1 <= i < self.n_goals() ==> (#[trigger] self.attempts@[i]) is None
    }

    pub open spec fn wf(self) -> bool {
        &&& self.dims_ok()
        &&& self.attempts_ok()
        &&& (self.goals_met ==> self.prefix_ok(self.n_goals()))
        &&& (!self.goals_met ==> self.prefix_ok(0) || self.stalled_ok())
    }

    /// A fresh enumeration with no conflicts to respect and at least one
    /// satisfying candidate per goal.  From such a state the first step
    /// cannot fail: a combination is owed.
    pub open spec fn spec_fresh_and_satisfiable(self) -> bool {
        &&& self.n_goals() >= 1
        &&& !self.goals_met
        &&& self.prefix_ok(0)
        &&& forall|j: int| 0 <= j < self.n_goals() ==> (#[trigger] self.accum@[j]) is None
        &&& match self.mutexes {
            Option::Some(m) => m@.len() == 0,
            Option::None => true,
        }
        &&& forall|i: int|
            0 <= i < self.n_goals() ==> exists|a: usize|
                a < self.n_actions && (#[trigger] self.sat@[i])@[a as int]
    }

    pub open spec fn base(self) -> int {
        self.n_actions + 2
    }

    pub open spec fn digit(self, i: int) -> int {
        match self.attempts@[i] {
            Option::Some(s) => s@.len() as int,
            Option::None => self.n_actions as int,
        }
    }

    pub open spec fn digits(self) -> Seq<int> {
        Seq::new(self.sat@.len() as nat, |i: int| self.digit(i))
    }

    /// The enumeration's progress measure: its digit vector read as a
    /// base-`base()` number.  Every step that assigns an action strictly
    /// decreases it.
    pub open spec fn measure(self) -> int {
        seq_pos(self.digits(), self.base())
    }

    /// All digits stay in `[0, n_actions]`.
    proof fn lemma_digits_bounded(self)
        requires
            self.dims_ok(),
            self.attempts_ok(),
        ensures
            forall|j: int| 0 <= j < self.digits().len() ==> 0 <= #[trigger] self.digits()[j]
                <= self.n_actions,
    {
        assert forall|j: int| 0 <= j < self.digits().len() implies 0 <= #[trigger] self.digits()[j]
            <= self.n_actions by {
            match self.attempts@[j] {
                Option::Some(s) => {
                    assert(self.list_ok(j, s@));
                    lemma_ascending_len(s@, self.n_actions as int);
                },
                Option::None => {},
            }
        }
    }
}

/// Unordered-pair membership is symmetric in the two components.
pub proof fn lemma_has_pair_sym<T>(s: Seq<(T, T)>, x: T, y: T)
    ensures
        spec_has_pair(s, x, y) == spec_has_pair(s, y, x),
{
    if spec_has_pair(s, x, y) {
        let k = choose|k: int| 0 <= k < s.len() && (s[k] == (x, y) || s[k] == (y, x));
        assert(s[k] == (y, x) || s[k] == (x, y));
    }
    if spec_has_pair(s, y, x) {
        let k = choose|k: int| 0 <= k < s.len() && (s[k] == (y, x) || s[k] == (x, y));
        assert(s[k] == (x, y) || s[k] == (y, x));
    }
}

impl CombinationSearch {
    /// Builds the candidate list for goal `i` afresh: the actions that
    /// satisfy the goal, kept only when no conflict with an action already
    /// assigned to an earlier goal stands in the way, in ascending order;
    /// an absent conflict relation forbids nothing.  Scanning stops early
    /// when the action already assigned to this goal qualifies again; with
    /// no assignment at this goal the scan is complete: every valid
    /// candidate is kept.
    fn rebuild_avail(&self, i: usize) -> (avail: Vec<usize>)
        requires
            self.dims_ok(),
            (i as int) < self.n_goals(),
        ensures
            self.list_ok(i as int, avail@),
            self.accum@[i as int] is None ==> (forall|a: usize|
                self.cand_ok(i as int, a) ==> avail@.contains(a)),
    {
        proof {
            crate::pairset::lemma_usize_eq_structural();
        }
        let mut committed: Vec<usize> = Vec::new();
        let mut j: usize = 0;
        while j < i
            invariant
                self.dims_ok(),
                (i as int) < self.n_goals(),
                j <= i,
                forall|j2: int|
                    0 <= j2 < j ==> ((#[trigger] self.accum@[j2]) matches Some(b)
                        ==> committed@.contains(b)),
                forall|idx: int|
                    0 <= idx < committed@.len() ==> self.spec_assigned_below(
                        i as int,
                        #[trigger] committed@[idx],
                    ),
            decreases i - j,
        {
            match self.accum[j] {
                Option::Some(b) => {
                    let ghost old_c = committed@;
                    committed.push(b);
                    proof {
                        assert(committed@[old_c.len() as int] == b);
                        assert(self.spec_assigned_below(i as int, b)) by {
                            assert(0 <= j < i && self.accum@[j as int] == Some(b));
                        }
                        assert forall|idx: int|
                            0 <= idx < committed@.len() implies self.spec_assigned_below(
                            i as int,
                            #[trigger] committed@[idx],
                        ) by {
                            if idx < old_c.len() {
                                assert(committed@[idx] == old_c[idx]);
                            }
                        }
                        assert forall|j2: int|
                            0 <= j2 < j + 1 implies ((#[trigger] self.accum@[j2]) matches Some(b2)
                            ==> committed@.contains(b2)) by {
                            if j2 < j {
                                match self.accum@[j2] {
                                    Option::Some(b2) => {
                                        let idx = choose|idx: int|
                                            0 <= idx < old_c.len() && old_c[idx] == b2;
                                        assert(committed@[idx] == b2);
                                    },
                                    Option::None => {},
                                }
                            }
                        }
                    }
                },
                Option::None => {},
            }
            j += 1;
        }
        let mut avail: Vec<usize> = Vec::new();
        let mut a: usize = 0;
        let mut done = false;
        let n = self.n_actions;
        while a < n && !done
            invariant
                forall|m: int| 0 <= m < avail@.len() ==> avail@[m] <= a,
                !done ==> (forall|m: int| 0 <= m < avail@.len() ==> avail@[m] < a),
                self.dims_ok(),
                (i as int) < self.n_goals(),
                n == self.n_actions,
                a <= n,
                eq_is_structural::<usize>(),
                forall|j2: int|
                    0 <= j2 < i ==> ((#[trigger] self.accum@[j2]) matches Some(b)
                        ==> committed@.contains(b)),
                forall|idx: int|
                    0 <= idx < committed@.len() ==> self.spec_assigned_below(
                        i as int,
                        #[trigger] committed@[idx],
                    ),
                self.accum@[i as int] is None ==> (forall|a2: usize|
                    a2 < a && self.cand_ok(i as int, a2) ==> avail@.contains(a2)),
                done ==> self.accum@[i as int] matches Some(_),
                forall|m: int| 0 <= m < avail@.len() ==> self.cand_ok(i as int, #[trigger] avail@[m]),
                forall|m: int, n2: int| 0 <= m < n2 < avail@.len() ==> avail@[m] < avail@[n2],
            decreases n - a + (if done {
                0int
            } else {
                1int
            }),
        {
            if self.sat[i][a] {
                let reuse = match self.accum[i] {
                    Option::Some(b) => b == a,
                    Option::None => false,
                };
                let mut keep = false;
                match &self.mutexes {
                    Option::Some(m) => {
                        let sing = vec![a];
                        let pairs = crate::pairset::pairs_from_sets(&sing, &committed);
                        if !m.intersects(&pairs) {
                            keep = true;
                            proof {
                                assert forall|j2: int|
                                    0 <= j2 < i implies ((#[trigger] self.accum@[j2]) matches Some(
                                    b,
                                ) ==> !self.spec_conflict(a, b)) by {
                                    match self.accum@[j2] {
                                        Option::Some(b) => {
                                            if self.spec_conflict(a, b) {
                                                assert(committed@.contains(b));
                                                let idx = choose|idx: int|
                                                    0 <= idx < committed@.len() && committed@[idx]
                                                        == b;
                                                assert(sing@[0] == a);
                                                assert(spec_has_pair(
                                                    pairs@,
                                                    sing@[0],
                                                    committed@[idx],
                                                ));
                                                let k = choose|k: int|
                                                    0 <= k < pairs@.len() && (pairs@[k] == (a, b)
                                                        || pairs@[k] == (b, a));
                                                lemma_has_pair_sym(m@, a, b);
                                                assert(spec_has_pair(
                                                    m@,
                                                    pairs@[k].0,
                                                    pairs@[k].1,
                                                ));
                                                assert(false);
                                            }
                                        },
                                        Option::None => {},
                                    }
                                }
                            }
                        } else {
                            proof {
                                assert(!self.cand_ok(i as int, a)) by {
                                    if self.cand_ok(i as int, a) {
                                        let k = choose|k: int|
                                            0 <= k < pairs@.len() && spec_has_pair(
                                                m@,
                                                pairs@[k].0,
                                                pairs@[k].1,
                                            );
                                        assert(sing@.contains(pairs@[k].0));
                                        let m0 = choose|m0: int|
                                            0 <= m0 < sing@.len() && sing@[m0] == pairs@[k].0;
                                        assert(pairs@[k].0 == a);
                                        assert(committed@.contains(pairs@[k].1));
                                        let idx = choose|idx: int|
                                            0 <= idx < committed@.len() && committed@[idx]
                                                == pairs@[k].1;
                                        assert(self.spec_assigned_below(
                                            i as int,
                                            committed@[idx],
                                        ));
                                        let j2 = choose|j2: int|
                                            0 <= j2 < i && self.accum@[j2] == Some(pairs@[k].1);
                                        assert(self.spec_conflict(a, pairs@[k].1));
                                        assert(false);
                                    }
                                }
                            }
                        }
                    },
                    Option::None => {
                        keep = true;
                    },
                }
                if keep {
                    let ghost old_avail = avail@;
                    avail.push(a);
                    proof {
                        assert(avail@[old_avail.len() as int] == a);
                        assert(self.cand_ok(i as int, a));
                        assert forall|a2: usize|
                            old_avail.contains(a2) implies avail@.contains(a2) by {
                            let m2 = choose|m2: int|
                                0 <= m2 < old_avail.len() && old_avail[m2] == a2;
                            assert(avail@[m2] == a2);
                        }
                        assert(avail@.contains(a));
                    }
                    if reuse {
                        proof {
                            assert(self.accum@[i as int] matches Some(_));
                        }
                        done = true;
                    }
                }
            }
            if !done {
                a += 1;
            }
        }
        proof {
            if self.accum@[i as int] is None {
                assert(!done && a >= n);
                assert forall|a2: usize|
                    self.cand_ok(i as int, a2) implies avail@.contains(a2) by {
                    assert(a2 < self.n_actions);
                }
            }
        }
        avail
    }
}

impl CombinationSearch {
    /// Two states that agree on the tables and on the assignment at `j`
    /// agree on whether goal `j` is validly assigned.
    proof fn lemma_same_assigned(a: CombinationSearch, b: CombinationSearch, j: int)
        requires
            b.sat == a.sat,
            b.n_actions == a.n_actions,
            0 <= j < a.sat@.len(),
            b.accum@[j] == a.accum@[j],
        ensures
            a.assigned_ok(j) == b.assigned_ok(j),
    {
    }

    /// Two states that agree on the tables and on the assignment below `i`
    /// agree on which candidates are valid for goal `i`.
    proof fn lemma_same_cand(a: CombinationSearch, b: CombinationSearch, i: int, x: usize)
        requires
            b.sat == a.sat,
            b.n_actions == a.n_actions,
            b.mutexes == a.mutexes,
            0 <= i < a.sat@.len(),
            forall|j: int| 0 <= j < i ==> b.accum@[j] == a.accum@[j],
        ensures
            a.cand_ok(i, x) == b.cand_ok(i, x),
    {
        if a.cand_ok(i, x) {
            assert forall|j: int|
                0 <= j < i implies ((#[trigger] b.accum@[j]) matches Some(bb)
                ==> !b.spec_conflict(x, bb)) by {
                assert(b.accum@[j] == a.accum@[j]);
            }
        }
        if b.cand_ok(i, x) {
            assert forall|j: int|
                0 <= j < i implies ((#[trigger] a.accum@[j]) matches Some(bb)
                ==> !a.spec_conflict(x, bb)) by {
                assert(b.accum@[j] == a.accum@[j]);
            }
        }
    }

    /// One step of the lazy enumeration: the next combination of candidate
    /// actions, one per goal, each satisfying its goal and no two in
    /// conflict — or nothing, when the enumeration is exhausted from the
    /// current state.  Calling again after a success resumes where the
    /// enumeration left off.
    pub fn advance(&mut self) -> (r: Option<Vec<usize>>)
        requires
            old(self).wf(),
        ensures
            final(self).wf(),
            final(self).sat == old(self).sat,
            final(self).mutexes == old(self).mutexes,
            final(self).n_actions == old(self).n_actions,
            (r matches Some(c) ==> {
                &&& c@.len() == old(self).n_goals()
                &&& forall|i: int|
                    0 <= i < c@.len() ==> (#[trigger] c@[i]) < old(self).n_actions && old(
                        self,
                    ).sat@[i]@[c@[i] as int]
                &&& forall|i: int, j: int|
                    #![trigger c@[i], c@[j]]
                    0 <= i < j < c@.len() ==> !old(self).spec_conflict(c@[i], c@[j])
                &&& final(self).goals_met
            }),
            (r matches Some(_) ==> (final(self).measure() < old(self).measure() || (old(
                self,
            ).n_goals() == 0 && !old(self).goals_met))),
            (r is None ==> !final(self).goals_met),
            old(self).spec_fresh_and_satisfiable() ==> r is Some,
            old(self).n_goals() == 0 ==> (if old(self).goals_met {
                r is None
            } else {
                r matches Some(c) && c@.len() == 0
            }),
    {
        let ghost easy = old(self).spec_fresh_and_satisfiable();
        let n = self.sat.len();
        if n == 0 {
            if self.goals_met {
                self.goals_met = false;
                return None;
            } else {
                self.goals_met = true;
                return Some(Vec::new());
            }
        }
        let mut i: usize;
        if self.goals_met {
            self.goals_met = false;
            i = n - 1;
            self.accum.set(i, None);
            proof {
                assert(old(self).prefix_ok(old(self).n_goals()));
                assert forall|j: int| 0 <= j < i implies #[trigger] self.assigned_ok(j) by {
                    assert(old(self).assigned_ok(j));
                    Self::lemma_same_assigned(*old(self), *self, j);
                }
                assert(self.attempts_ok()) by {
                    assert forall|j: int|
                        0 <= j < self.attempts@.len() implies ((#[trigger] self.attempts@[j])
                        matches Some(sl) ==> self.list_ok(j, sl@)) by {
                        match self.attempts@[j] {
                            Option::Some(sl) => {
                                assert(old(self).list_ok(j, sl@));
                                assert forall|m: int| 0 <= m < sl@.len() implies self.cand_ok(
                                    j,
                                    #[trigger] sl@[m],
                                ) by {
                                    assert(old(self).cand_ok(j, sl@[m]));
                                    assert forall|j2: int|
                                        0 <= j2 < j implies ((#[trigger] self.accum@[j2])
                                        matches Some(bb) ==> !self.spec_conflict(
                                            sl@[m],
                                            bb,
                                        )) by {
                                        if j2 != i as int {
                                            assert(self.accum@[j2] == old(self).accum@[j2]);
                                        }
                                    }
                                }
                            },
                            Option::None => {},
                        }
                    }
                }
            }
        } else {
            i = 0;
        }
        proof {
            self.lemma_digits_bounded();
            lemma_seq_pos_bound(self.digits(), self.base(), self.n_actions as int);
            assert(self.digits() == old(self).digits());
        }
        loop
            invariant
                self.dims_ok(),
                self.attempts_ok(),
                self.sat == old(self).sat,
                self.mutexes == old(self).mutexes,
                self.n_actions == old(self).n_actions,
                n == self.sat@.len(),
                n >= 1,
                i < n,
                forall|j: int| 0 <= j < i ==> (#[trigger] self.attempts@[j]) matches Some(_),
                forall|j: int| i < j < n ==> (#[trigger] self.attempts@[j]) is None,
                forall|j: int| 0 <= j < i ==> #[trigger] self.assigned_ok(j),
                forall|i2: int, j2: int|
                    #![trigger self.accum@[i2], self.accum@[j2]]
                    0 <= i2 < j2 < i ==> !self.spec_conflict(
                        self.accum@[i2].unwrap(),
                        self.accum@[j2].unwrap(),
                    ),
                self.goals_met == false,
                self.measure() <= old(self).measure(),
                easy == old(self).spec_fresh_and_satisfiable(),
                easy ==> (forall|j: int|
                    i as int <= j < n ==> (#[trigger] self.accum@[j]) is None),
                easy ==> self.attempts@[i as int] is None,
            decreases self.measure(),
        {
            let ghost head = *self;
            let mut slot: Option<Vec<usize>> = None;
            self.attempts.set_and_swap(i, &mut slot);
            let mut avail: Vec<usize> = match slot {
                Option::Some(s) => s,
                Option::None => self.rebuild_avail(i),
            };
            proof {
                assert(self.attempts@ == head.attempts@.update(i as int, None::<Vec<usize>>));
                assert forall|j: int| 0 <= j < i implies #[trigger] self.assigned_ok(j) by {
                    Self::lemma_same_assigned(head, *self, j);
                }
                assert(self.attempts_ok()) by {
                    assert forall|j: int|
                        0 <= j < self.attempts@.len() implies ((#[trigger] self.attempts@[j])
                        matches Some(sl) ==> self.list_ok(j, sl@)) by {
                        match self.attempts@[j] {
                            Option::Some(sl) => {
                                assert(head.attempts@[j] == self.attempts@[j]);
                                assert(head.list_ok(j, sl@));
                                assert forall|m: int| 0 <= m < sl@.len() implies self.cand_ok(
                                    j,
                                    #[trigger] sl@[m],
                                ) by {
                                    Self::lemma_same_cand(head, *self, j, sl@[m]);
                                }
                            },
                            Option::None => {},
                        }
                    }
                }
                assert(self.list_ok(i as int, avail@)) by {
                    match head.attempts@[i as int] {
                        Option::Some(s) => {
                            assert(head.list_ok(i as int, s@));
                        },
                        Option::None => {},
                    }
                }
                assert(avail@.len() as int <= head.digit(i as int)) by {
                    match head.attempts@[i as int] {
                        Option::Some(s) => {},
                        Option::None => {
                            lemma_ascending_len(avail@, self.n_actions as int);
                        },
                    }
                }
                if easy {
                    assert(old(self).spec_fresh_and_satisfiable());
                    assert(head.attempts@[i as int] is None);
                    assert(self.accum@[i as int] is None);
                    assert(0 <= (i as int) && (i as int) < old(self).n_goals());
                    assert(exists|a0: usize|
                        a0 < old(self).n_actions && (#[trigger] old(self).sat@[i as int])@[
                            a0 as int
                        ]) by {
                        let s0 = old(self).sat@[i as int];
                        assert(exists|a0: usize|
                            a0 < old(self).n_actions && s0@[a0 as int]);
                        let w = choose|a0: usize| a0 < old(self).n_actions && s0@[a0 as int];
                        assert(w < old(self).n_actions && old(self).sat@[i as int]@[w as int]);
                    }
                    let a0 = choose|a0: usize|
                        a0 < old(self).n_actions && (#[trigger] old(self).sat@[i as int])@[
                            a0 as int
                        ];
                    assert(self.sat == old(self).sat);
                    assert(self.mutexes == old(self).mutexes);
                    assert(forall|x: usize, y: usize| !self.spec_conflict(x, y)) by {
                        match old(self).mutexes {
                            Option::Some(m) => {
                                assert(m@.len() == 0);
                            },
                            Option::None => {},
                        }
                    }
                    assert(self.cand_ok(i as int, a0));
                    assert(avail@.contains(a0));
                    assert(avail@.len() >= 1);
                }
            }
            while avail.len() == 0
                invariant
                    self.dims_ok(),
                    self.attempts_ok(),
                    self.sat == head.sat,
                    self.mutexes == head.mutexes,
                    self.n_actions == head.n_actions,
                    self.accum == head.accum,
                    self.sat == old(self).sat,
                    self.mutexes == old(self).mutexes,
                    self.n_actions == old(self).n_actions,
                    n == self.sat@.len(),
                    n >= 1,
                    i < n,
                    forall|j: int| 0 <= j < i ==> (#[trigger] self.attempts@[j]) matches Some(_),
                    forall|j: int| i as int <= j < n ==> (#[trigger] self.attempts@[j]) is None,
                    forall|j: int|
                        0 <= j < i ==> #[trigger] self.attempts@[j] == head.attempts@[j],
                    forall|j: int| 0 <= j < i ==> #[trigger] self.assigned_ok(j),
                    forall|i2: int, j2: int|
                        #![trigger self.accum@[i2], self.accum@[j2]]
                        0 <= i2 < j2 < i ==> !self.spec_conflict(
                            self.accum@[i2].unwrap(),
                            self.accum@[j2].unwrap(),
                        ),
                    self.goals_met == false,
                    self.list_ok(i as int, avail@),
                    avail@.len() as int <= head.digit(i as int),
                    easy == old(self).spec_fresh_and_satisfiable(),
                    easy ==> avail@.len() >= 1,
                    easy ==> (forall|j: int|
                        i as int <= j < n ==> (#[trigger] self.accum@[j]) is None),
                decreases i,
            {
                if i == 0 {
                    let ghost empty_view = avail@;
                    self.attempts.set(0, Some(avail));
                    proof {
                        assert(self.attempts@[0] matches Some(s) && s@ == empty_view);
                        assert(self.stalled_ok());
                        assert(self.attempts_ok()) by {
                            assert forall|j: int|
                                0 <= j < self.attempts@.len() implies ((
                            #[trigger] self.attempts@[j]) matches Some(sl) ==> self.list_ok(
                                j,
                                sl@,
                            )) by {}
                        }
                    }
                    return None;
                }
                i -= 1;
                let ghost before_take = *self;
                let mut slot2: Option<Vec<usize>> = None;
                self.attempts.set_and_swap(i, &mut slot2);
                proof {
                    assert(self.attempts@ == before_take.attempts@.update(
                        i as int,
                        None::<Vec<usize>>,
                    ));
                    assert forall|j: int| 0 <= j < i implies #[trigger] self.assigned_ok(j) by {
                        Self::lemma_same_assigned(before_take, *self, j);
                    }
                    assert(self.attempts_ok()) by {
                        assert forall|j: int|
                            0 <= j < self.attempts@.len() implies ((#[trigger] self.attempts@[j])
                            matches Some(sl) ==> self.list_ok(j, sl@)) by {
                            match self.attempts@[j] {
                                Option::Some(sl) => {
                                    assert(before_take.attempts@[j] == self.attempts@[j]);
                                    assert(before_take.list_ok(j, sl@));
                                    assert forall|m: int| 0 <= m < sl@.len() implies self.cand_ok(
                                        j,
                                        #[trigger] sl@[m],
                                    ) by {
                                        Self::lemma_same_cand(before_take, *self, j, sl@[m]);
                                    }
                                },
                                Option::None => {},
                            }
                        }
                    }
                }
                match slot2 {
                    Option::Some(s) => {
                        proof {
                            assert(head.attempts@[i as int] matches Some(t) && t@ == s@);
                            assert(self.list_ok(i as int, s@)) by {
                                assert(head.list_ok(i as int, s@));
                            }
                        }
                        avail = s;
                    },
                    Option::None => {
                        proof {
                            assert(false);
                        }
                        avail = Vec::new();
                    },
                }
            }
            let ghost pick_level = i as int;
            let ghost avail_before = avail@;
            let a = avail.remove(0);
            proof {
                assert(self.cand_ok(i as int, a));
                assert(self.list_ok(i as int, avail@)) by {
                    assert forall|m: int| 0 <= m < avail@.len() implies self.cand_ok(
                        i as int,
                        #[trigger] avail@[m],
                    ) by {
                        assert(avail@[m] == avail_before[m + 1]);
                    }
                }
            }
            let ghost pre_pick = *self;
            self.accum.set(i, Some(a));
            let ghost avail_len = avail@.len() as int;
            self.attempts.set(i, Some(avail));
            proof {
                assert(self.attempts_ok()) by {
                    assert forall|j: int|
                        0 <= j < self.attempts@.len() implies ((#[trigger] self.attempts@[j])
                        matches Some(s) ==> self.list_ok(j, s@)) by {
                        match self.attempts@[j] {
                            Option::Some(s) => {
                                if j == i as int {
                                    assert forall|m: int| 0 <= m < s@.len() implies self.cand_ok(
                                        j,
                                        #[trigger] s@[m],
                                    ) by {
                                        assert(pre_pick.cand_ok(j, s@[m]));
                                        assert forall|j2: int|
                                            0 <= j2 < j implies ((#[trigger] self.accum@[j2])
                                            matches Some(b) ==> !self.spec_conflict(
                                                s@[m],
                                                b,
                                            )) by {
                                            assert(self.accum@[j2] == pre_pick.accum@[j2]);
                                        }
                                    }
                                } else {
                                    assert(pre_pick.attempts@[j] == self.attempts@[j]);
                                    assert(pre_pick.list_ok(j, s@));
                                    assert forall|m: int| 0 <= m < s@.len() implies self.cand_ok(
                                        j,
                                        #[trigger] s@[m],
                                    ) by {
                                        assert(pre_pick.cand_ok(j, s@[m]));
                                        assert forall|j2: int|
                                            0 <= j2 < j implies ((#[trigger] self.accum@[j2])
                                            matches Some(b) ==> !self.spec_conflict(
                                                s@[m],
                                                b,
                                            )) by {
                                            if j2 != i as int {
                                                assert(self.accum@[j2] == pre_pick.accum@[j2]);
                                            } else {
                                                assert(j < i as int || !(self.attempts@[j]
                                                    matches Some(_)) || j > i as int);
                                            }
                                        }
                                    }
                                }
                            },
                            Option::None => {},
                        }
                    }
                }
                assert(self.assigned_ok(i as int));
                assert forall|j: int| 0 <= j < i + 1 implies #[trigger] self.assigned_ok(j) by {
                    if j < i as int {
                        Self::lemma_same_assigned(pre_pick, *self, j);
                    }
                }
                assert forall|i2: int, j2: int|
                    0 <= i2 < j2 < i + 1 implies !self.spec_conflict(
                        (#[trigger] self.accum@[i2]).unwrap(),
                        (#[trigger] self.accum@[j2]).unwrap(),
                    ) by {
                    if j2 == i as int {
                        assert(pre_pick.cand_ok(i as int, a));
                        assert(self.accum@[i2] == pre_pick.accum@[i2]);
                        assert(pre_pick.assigned_ok(i2));
                        assert(pre_pick.accum@[i2] matches Some(_));
                        match self.mutexes {
                            Option::Some(m) => {
                                lemma_has_pair_sym(m@, self.accum@[i2].unwrap(), a);
                            },
                            Option::None => {},
                        }
                    } else {
                        assert(self.accum@[i2] == pre_pick.accum@[i2]);
                        assert(self.accum@[j2] == pre_pick.accum@[j2]);
                    }
                }
                // the digit at the pick level went down; everything nearer
                // the first goal is untouched
                assert(self.digit(pick_level) == avail_len);
                assert(avail_len < head.digit(pick_level));
                assert forall|j: int| 0 <= j < pick_level implies self.digit(j) == head.digit(
                    j,
                ) by {
                    assert(self.attempts@[j] == head.attempts@[j]);
                }
                head.lemma_digits_bounded();
                self.lemma_digits_bounded();
                lemma_seq_pos_lex(
                    head.digits(),
                    self.digits(),
                    self.base(),
                    self.n_actions as int,
                    pick_level,
                );
                lemma_seq_pos_bound(self.digits(), self.base(), self.n_actions as int);
                assert(self.measure() < head.measure());
            }
            if i + 1 == n {
                let ghost before_flag = *self;
                self.goals_met = true;
                proof {
                    assert forall|j: int| 0 <= j < n implies #[trigger] self.assigned_ok(j) by {
                        Self::lemma_same_assigned(before_flag, *self, j);
                    }
                }
                let mut c: Vec<usize> = Vec::new();
                let mut k: usize = 0;
                while k < n
                    invariant
                        self.dims_ok(),
                        n == self.sat@.len(),
                        k <= n,
                        c@.len() == k,
                        forall|j: int| 0 <= j < n ==> #[trigger] self.assigned_ok(j),
                        forall|m: int| 0 <= m < k ==> self.accum@[m] == Some(#[trigger] c@[m]),
                    decreases n - k,
                {
                    match self.accum[k] {
                        Option::Some(v) => {
                            c.push(v);
                        },
                        Option::None => {
                            proof {
                                assert(self.assigned_ok(k as int));
                                assert(false);
                            }
                        },
                    }
                    k += 1;
                }
                proof {
                    assert(self.prefix_ok(self.n_goals())) by {
                        assert forall|j: int|
                            0 <= j < self.n_goals() implies ((#[trigger] self.attempts@[j])
                            matches Some(_) <==> j < self.n_goals()) by {
                            assert(before_flag.attempts@[j] == self.attempts@[j]);
                        }
                        assert forall|i2: int, j2: int|
                            #![trigger self.accum@[i2], self.accum@[j2]]
                            0 <= i2 < j2 < self.n_goals() implies !self.spec_conflict(
                            self.accum@[i2].unwrap(),
                            self.accum@[j2].unwrap(),
                        ) by {
                            assert(before_flag.accum@[i2] == self.accum@[i2]);
                            assert(before_flag.accum@[j2] == self.accum@[j2]);
                        }
                    }
                    assert forall|m: int|
                        0 <= m < c@.len() implies (#[trigger] c@[m]) < old(self).n_actions && old(
                        self,
                    ).sat@[m]@[c@[m] as int] by {
                        assert(self.assigned_ok(m));
                        assert(self.accum@[m] == Some(c@[m]));
                        assert(self.sat == old(self).sat);
                    }
                    assert(self.digits() =~= before_flag.digits()) by {
                        assert forall|j: int|
                            0 <= j < self.n_goals() implies self.digit(j) == before_flag.digit(
                            j,
                        ) by {
                            assert(self.attempts@[j] == before_flag.attempts@[j]);
                        }
                    }
                    assert(self.measure() < head.measure());
                    assert(head.measure() <= old(self).measure());
                    assert forall|i2: int, j2: int|
                        #![trigger c@[i2], c@[j2]]
                        0 <= i2 < j2 < c@.len() implies !old(self).spec_conflict(
                        c@[i2],
                        c@[j2],
                    ) by {
                        assert(self.accum@[i2] == Some(c@[i2]));
                        assert(self.accum@[j2] == Some(c@[j2]));
                        assert(!self.spec_conflict(
                            self.accum@[i2].unwrap(),
                            self.accum@[j2].unwrap(),
                        ));
                    }
                }
                return Some(c);
            }
            i += 1;
        }
    }
}

/// Whether the literal vectors hold the same literals in the same order.
fn lits_vec_eq(a: &Vec<Lit>, b: &Vec<Lit>) -> (r: bool)
    ensures
        r == (a@ == b@),
{
    if a.len() != b.len() {
        return false;
    }
    let n = a.len();
    let mut k: usize = 0;
    while k < n
        invariant
            n == a@.len(),
            n == b@.len(),
            k <= n,
            forall|m: int| 0 <= m < k ==> a@[m] == b@[m],
        decreases n - k,
    {
        if !crate::layer::lit_eq(&a[k], &b[k]) {
            return false;
        }
        k += 1;
    }
    proof {
        assert(a@ =~= b@);
    }
    true
}

/// Whether the index set `v` holds `x`.
fn usizes_contains(v: &Vec<usize>, x: usize) -> (r: bool)
    ensures
        r == v@.contains(x),
{
    let n = v.len();
    let mut k: usize = 0;
    while k < n
        invariant
            n == v@.len(),
            k <= n,
            forall|m: int| 0 <= m < k ==> v@[m] != x,
        decreases n - k,
    {
        if v[k] == x {
            return true;
        }
        k += 1;
    }
    false
}

/// The position of `x` in `v`, if it is there.
fn position_in(v: &Vec<usize>, x: usize) -> (r: Option<usize>)
    ensures
        (r matches Some(p) ==> p < v@.len() && v@[p as int] == x),
        (r is None ==> !v@.contains(x)),
{
    let n = v.len();
    let mut k: usize = 0;
    while k < n
        invariant
            n == v@.len(),
            k <= n,
            forall|m: int| 0 <= m < k ==> v@[m] != x,
        decreases n - k,
    {
        if v[k] == x {
            return Some(k);
        }
        k += 1;
    }
    None
}

/// Soundness of one extracted group of core actions with respect to the
/// action layer at `layer`: every member is applicable there and no two
/// distinct members are in conflict there.
pub open spec fn core_group_sound<AId, PId>(
    g: PlanGraph<AId, PId>,
    group: Seq<usize>,
    layer: int,
) -> bool {
    &&& forall|m: int| 0 <= m < group.len() ==> (#[trigger] group[m]) < g.core@.len()
    &&& forall|m: int|
        0 <= m < group.len() ==> layer_acts(g.layers@[layer]).contains(#[trigger] group[m])
    &&& forall|m: int, m2: int|
        #![trigger group[m], group[m2]]
        0 <= m < group.len() && 0 <= m2 < group.len() && group[m] != group[m2] ==> !spec_has_pair(
            layer_act_mutexes(g.layers@[layer]),
            group[m],
            group[m2],
        )
}

/// Whether some member of `group` produces the literal `p`.
pub open spec fn group_achieves<AId, PId>(
    g: PlanGraph<AId, PId>,
    group: Seq<usize>,
    p: Lit,
) -> bool {
    exists|e: int| 0 <= e < group.len() && g.spec_achieves(group[e] as int, p)
}

/// Whether every precondition of every member of `group` holds in the
/// initial state.
pub open spec fn group_grounded<AId, PId>(g: PlanGraph<AId, PId>, group: Seq<usize>) -> bool {
    forall|e: int, q: int|
        #![trigger g.core@[group[e] as int].reqs@[q]]
        0 <= e < group.len() && 0 <= q < g.core@[group[e] as int].reqs@.len()
            ==> g.initial@.contains(g.core@[group[e] as int].reqs@[q])
}

/// Whether every precondition of every member of `group` is produced by
/// some member of the earlier group `prev`.
pub open spec fn group_supported<AId, PId>(
    g: PlanGraph<AId, PId>,
    group: Seq<usize>,
    prev: Seq<usize>,
) -> bool {
    forall|e: int, q: int|
        #![trigger g.core@[group[e] as int].reqs@[q]]
        0 <= e < group.len() && 0 <= q < g.core@[group[e] as int].reqs@.len() ==> group_achieves(
            g,
            prev,
            g.core@[group[e] as int].reqs@[q],
        )
}

/// Soundness of a whole extracted core plan for `goals`: each group is
/// sound at its step's action layer, the last group produces every goal,
/// each group's preconditions are produced by the group before it, the
/// first group's preconditions hold initially, and with goals to meet the
/// last group is nonempty.  An earlier group is nonempty too, unless every
/// action of the group after it has an empty precondition set — the one
/// way a step can have nothing to do.
pub open spec fn core_plan_sound_for<AId, PId>(
    g: PlanGraph<AId, PId>,
    cp: Seq<Vec<usize>>,
    goals: Seq<Lit>,
) -> bool {
    &&& forall|t: int| 0 <= t < cp.len() ==> core_group_sound(g, (#[trigger] cp[t])@, 2 * t + 1)
    &&& cp.len() >= 1 ==> (forall|i: int|
        0 <= i < goals.len() ==> group_achieves(g, cp[cp.len() - 1]@, #[trigger] goals[i]))
    &&& cp.len() >= 1 ==> group_grounded(g, cp[0]@)
    &&& forall|t: int|
        1 <= t < cp.len() ==> group_supported(g, (#[trigger] cp[t])@, cp[t - 1]@)
    &&& (cp.len() >= 1 && goals.len() >= 1) ==> cp[cp.len() - 1]@.len() >= 1
    &&& forall|t: int|
        0 <= t < cp.len() - 1 ==> ((#[trigger] cp[t])@.len() >= 1 || (forall|e: int|
            0 <= e < cp[t + 1]@.len() ==> g.core@[(#[trigger] cp[t + 1]@[e]) as int].reqs@.len()
                == 0))
}

/// Whether the reported plan stands, action for action, for the core plan
/// `cp`.
pub open spec fn plan_represents<AId: Clone, PId: Clone>(
    g: PlanGraph<AId, PId>,
    plan: Seq<Vec<Action<AId, PId>>>,
    cp: Seq<Vec<usize>>,
) -> bool {
    &&& cp.len() == plan.len()
    &&& forall|t: int| 0 <= t < plan.len() ==> (#[trigger] cp[t])@.len() == plan[t]@.len()
    &&& forall|t: int, m: int|
        #![trigger plan[t]@[m]]
        0 <= t < plan.len() && 0 <= m < plan[t]@.len() ==> g.spec_represents(
            plan[t]@[m],
            cp[t]@[m] as int,
        )
}

/// Builds the combination enumeration for one subproblem: goals against
/// the candidate actions of one action layer, with the layer's conflict
/// relation translated to candidate positions.
fn build_search<AId, PId>(
    g: &PlanGraph<AId, PId>,
    goals: &Vec<Lit>,
    acts: &Vec<usize>,
    am: &MutexPairs<usize>,
) -> (s: CombinationSearch)
    requires
        forall|m: int| 0 <= m < acts@.len() ==> acts@[m] < g.core@.len(),
        forall|m: int, n: int| 0 <= m < n < acts@.len() ==> acts@[m] < acts@[n],
    ensures
        s.wf(),
        !s.goals_met,
        s.n_actions == acts@.len(),
        s.sat@.len() == goals@.len(),
        forall|i: int, j: int|
            #![trigger s.sat@[i]@[j]]
            0 <= i < goals@.len() && 0 <= j < acts@.len() ==> (s.sat@[i]@[j] == g.spec_achieves(
                acts@[j] as int,
                goals@[i],
            )),
        forall|i: int, j: int|
            #![trigger acts@[i], acts@[j]]
            0 <= i < acts@.len() && 0 <= j < acts@.len() && spec_has_pair(
                am@,
                acts@[i],
                acts@[j],
            ) ==> (s.mutexes matches Some(lm) && spec_has_pair(lm@, i as usize, j as usize)),
{
    let ng = goals.len();
    let na = acts.len();
    let mut sat: Vec<Vec<bool>> = Vec::new();
    let mut i: usize = 0;
    while i < ng
        invariant
            ng == goals@.len(),
            na == acts@.len(),
            i <= ng,
            sat@.len() == i,
            forall|m: int| 0 <= m < acts@.len() ==> acts@[m] < g.core@.len(),
            forall|i2: int| 0 <= i2 < i ==> (#[trigger] sat@[i2])@.len() == na,
            forall|i2: int, j2: int|
                #![trigger sat@[i2]@[j2]]
                0 <= i2 < i && 0 <= j2 < na ==> (sat@[i2]@[j2] == g.spec_achieves(
                    acts@[j2] as int,
                    goals@[i2],
                )),
        decreases ng - i,
    {
        let mut row: Vec<bool> = Vec::new();
        let mut j: usize = 0;
        while j < na
            invariant
                ng == goals@.len(),
                na == acts@.len(),
                i < ng,
                j <= na,
                row@.len() == j,
                forall|m: int| 0 <= m < acts@.len() ==> acts@[m] < g.core@.len(),
                forall|j2: int|
                    #![trigger row@[j2]]
                    0 <= j2 < j ==> (row@[j2] == g.spec_achieves(acts@[j2] as int, goals@[i as int])),
            decreases na - j,
        {
            let hit = lits_contains(&g.core[acts[j]].effects, &goals[i]);
            row.push(hit);
            j += 1;
        }
        sat.push(row);
        i += 1;
    }
    let mut local: MutexPairs<usize> = MutexPairs::new();
    let npairs = am.pairs().len();
    let mut k: usize = 0;
    while k < npairs
        invariant
            npairs == am@.len(),
            k <= npairs,
            na == acts@.len(),
            forall|m: int, n: int| 0 <= m < n < acts@.len() ==> acts@[m] < acts@[n],
            forall|k2: int, i2: int, j2: int|
                #![trigger am@[k2], acts@[i2], acts@[j2]]
                0 <= k2 < k && 0 <= i2 < acts@.len() && 0 <= j2 < acts@.len() && am@[k2] == (
                acts@[i2],
                acts@[j2],
                ) ==> spec_has_pair(local@, i2 as usize, j2 as usize),
        decreases npairs - k,
    {
        let pair = am.pairs()[k];
        let x = pair.0;
        let y = pair.1;
        let px = position_in(acts, x);
        let py = position_in(acts, y);
        let ghost old_local = local@;
        match (px, py) {
            (Option::Some(ix), Option::Some(iy)) => {
                local.insert(ix, iy);
                proof {
                    assert(local@[old_local.len() as int] == (ix, iy));
                    assert forall|k2: int, i2: int, j2: int|
                        0 <= k2 < k + 1 && 0 <= i2 < acts@.len() && 0 <= j2 < acts@.len()
                            && am@[k2] == (acts@[i2], acts@[j2]) implies spec_has_pair(
                        local@,
                        i2 as usize,
                        j2 as usize,
                    ) by {
                        if k2 < k {
                            crate::pairset::lemma_has_pair_push(
                                old_local,
                                (ix, iy),
                                i2 as usize,
                                j2 as usize,
                            );
                        } else {
                            assert(acts@[i2] == x && acts@[j2] == y);
                            assert(acts@[ix as int] == x && acts@[iy as int] == y);
                            assert(i2 == ix as int) by {
                                if i2 < ix as int {
                                    assert(acts@[i2] < acts@[ix as int]);
                                } else if i2 > ix as int {
                                    assert(acts@[ix as int] < acts@[i2]);
                                }
                            }
                            assert(j2 == iy as int) by {
                                if j2 < iy as int {
                                    assert(acts@[j2] < acts@[iy as int]);
                                } else if j2 > iy as int {
                                    assert(acts@[iy as int] < acts@[j2]);
                                }
                            }
                            assert(spec_has_pair(local@, ix, iy));
                        }
                    }
                }
            },
            _ => {
                proof {
                    assert forall|k2: int, i2: int, j2: int|
                        0 <= k2 < k + 1 && 0 <= i2 < acts@.len() && 0 <= j2 < acts@.len()
                            && am@[k2] == (acts@[i2], acts@[j2]) implies spec_has_pair(
                        local@,
                        i2 as usize,
                        j2 as usize,
                    ) by {
                        if k2 == k {
                            assert(acts@.contains(acts@[i2]));
                            assert(acts@.contains(acts@[j2]));
                            assert(false);
                        }
                    }
                }
            },
        }
        k += 1;
    }
    let mut attempts: Vec<Option<Vec<usize>>> = Vec::new();
    let mut accum: Vec<Option<usize>> = Vec::new();
    let mut t: usize = 0;
    while t < ng
        invariant
            t <= ng,
            attempts@.len() == t,
            accum@.len() == t,
            forall|m: int| 0 <= m < t ==> (#[trigger] attempts@[m]) is None,
            forall|m: int| 0 <= m < t ==> (#[trigger] accum@[m]) is None,
        decreases ng - t,
    {
        attempts.push(None);
        accum.push(None);
        t += 1;
    }
    let ghost local_snap = local@;
    let s = CombinationSearch {
        n_actions: na,
        sat,
        mutexes: Some(local),
        attempts,
        accum,
        goals_met: false,
    };
    proof {
        assert(s.dims_ok());
        assert(s.attempts_ok());
        assert(s.prefix_ok(0));
        assert forall|i2: int, j2: int|
            0 <= i2 < acts@.len() && 0 <= j2 < acts@.len() && spec_has_pair(
                am@,
                acts@[i2],
                acts@[j2],
            ) implies (s.mutexes matches Some(lm) && spec_has_pair(
            lm@,
            i2 as usize,
            j2 as usize,
        )) by {
            let k2 = choose|k2: int|
                0 <= k2 < am@.len() && (am@[k2] == (acts@[i2], acts@[j2]) || am@[k2] == (
                acts@[j2],
                acts@[i2],
                ));
            if am@[k2] == (acts@[j2], acts@[i2]) {
                assert(spec_has_pair(local_snap, j2 as usize, i2 as usize));
                lemma_has_pair_sym(local_snap, j2 as usize, i2 as usize);
            }
        }
    }
    s
}

/// Backward extraction for one subproblem: find, at proposition layer
/// `idx`, a combination of actions from the layer below that could achieve
/// `goals`, and recursively a plan for those actions' preconditions two
/// layers down, enumerating combinations until one succeeds or all fail.
/// `memo` records the (layer, goal set) pairs already proven unsolvable.
fn solve_rec<AId: Clone, PId: Clone>(
    g: &PlanGraph<AId, PId>,
    idx: usize,
    goals: Vec<Lit>,
    memo: &mut Vec<(usize, Vec<Lit>)>,
) -> (r: Option<Vec<Vec<usize>>>)
    requires
        g.wf(),
        2 <= idx < g.layers@.len(),
        idx % 2 == 0,
    ensures
        (r matches Some(p) ==> p@.len() == idx as int / 2 && core_plan_sound_for(*g, p@, goals@)),
        final(memo)@.len() >= old(memo)@.len(),
        forall|k: int| 0 <= k < old(memo)@.len() ==> final(memo)@[k] == old(memo)@[k],
        (r is None ==> exists|k: int|
            0 <= k < final(memo)@.len() && (#[trigger] final(memo)@[k]).0 == idx
                && final(memo)@[k].1@ == goals@),
    decreases idx,
{
    let nm = memo.len();
    let mut k: usize = 0;
    while k < nm
        invariant
            nm == memo@.len(),
            k <= nm,
        decreases nm - k,
    {
        if memo[k].0 == idx && lits_vec_eq(&memo[k].1, &goals) {
            proof {
                assert(memo@[k as int].0 == idx && memo@[k as int].1@ == goals@);
            }
            return None;
        }
        k += 1;
    }
    proof {
        assert(g.layer_wf(idx - 1));
    }
    let acts = g.acts_of(idx - 1);
    let am = g.act_mutexes_of(idx - 1);
    let mut search = build_search(g, &goals, acts, am);
    proof {
        search.lemma_digits_bounded();
        lemma_seq_pos_bound(search.digits(), search.base(), search.n_actions as int);
    }
    loop
        invariant
            g.wf(),
            2 <= idx < g.layers@.len(),
            idx % 2 == 0,
            acts@ == layer_acts(g.layers@[idx - 1]),
            am@ == layer_act_mutexes(g.layers@[idx - 1]),
            search.wf(),
            search.n_actions == acts@.len(),
            search.sat@.len() == goals@.len(),
            memo@.len() >= old(memo)@.len(),
            forall|k2: int| 0 <= k2 < old(memo)@.len() ==> memo@[k2] == old(memo)@[k2],
            forall|i2: int, j2: int|
                #![trigger search.sat@[i2]@[j2]]
                0 <= i2 < goals@.len() && 0 <= j2 < acts@.len() ==> (search.sat@[i2]@[j2]
                    == g.spec_achieves(acts@[j2] as int, goals@[i2])),
            0 <= search.measure(),
            forall|i: int, j: int|
                #![trigger acts@[i], acts@[j]]
                0 <= i < acts@.len() && 0 <= j < acts@.len() && spec_has_pair(
                    am@,
                    acts@[i],
                    acts@[j],
                ) ==> (search.mutexes matches Some(lm) && spec_has_pair(
                    lm@,
                    i as usize,
                    j as usize,
                )),
        decreases search.measure(), (if search.goals_met {
            0int
        } else {
            1int
        }),
    {
        proof {
            search.lemma_digits_bounded();
            lemma_seq_pos_bound(search.digits(), search.base(), search.n_actions as int);
        }
        let ghost search_pre = search;
        let next = search.advance();
        match next {
            Option::None => {
                let ghost before_push = memo@;
                memo.push((idx, goals));
                proof {
                    assert(memo@[before_push.len() as int].0 == idx && memo@[
                        before_push.len() as int
                    ].1@ == goals@);
                }
                return None;
            },
            Option::Some(combo) => {
                let nc = combo.len();
                let mut group: Vec<usize> = Vec::new();
                let mut m: usize = 0;
                while m < nc
                    invariant
                        nc == combo@.len(),
                        m <= nc,
                        forall|i: int| 0 <= i < combo@.len() ==> (#[trigger] combo@[i]) < acts@.len(),
                        forall|e: int|
                            0 <= e < group@.len() ==> exists|m2: int|
                                0 <= m2 < combo@.len() && #[trigger] group@[e] == acts@[combo@[m2] as int],
                        forall|e: int, e2: int|
                            0 <= e < e2 < group@.len() ==> group@[e] != group@[e2],
                        forall|m2: int|
                            0 <= m2 < m ==> group@.contains(acts@[(#[trigger] combo@[m2]) as int]),
                        m >= 1 ==> group@.len() >= 1,
                    decreases nc - m,
                {
                    let gidx = acts[combo[m]];
                    let present = usizes_contains(&group, gidx);
                    proof {
                        if present {
                            assert forall|m2: int|
                                0 <= m2 < m + 1 implies group@.contains(
                                acts@[(#[trigger] combo@[m2]) as int],
                            ) by {}
                        }
                    }
                    if !present {
                        let ghost old_g = group@;
                        group.push(gidx);
                        proof {
                            assert(group@[old_g.len() as int] == acts@[combo@[m as int] as int]);
                            assert forall|e: int| 0 <= e < group@.len() implies exists|m2: int|
                                0 <= m2 < combo@.len() && #[trigger] group@[e] == acts@[
                                combo@[m2] as int
                            ] by {
                                if e < old_g.len() {
                                    assert(group@[e] == old_g[e]);
                                } else {
                                    assert(group@[e] == acts@[combo@[m as int] as int]);
                                }
                            }
                            assert forall|m2: int|
                                0 <= m2 < m + 1 implies group@.contains(
                                acts@[(#[trigger] combo@[m2]) as int],
                            ) by {
                                if m2 < m as int {
                                    let e2 = choose|e2: int|
                                        0 <= e2 < old_g.len() && old_g[e2] == acts@[
                                            combo@[m2] as int
                                        ];
                                    assert(group@[e2] == acts@[combo@[m2] as int]);
                                } else {
                                    assert(group@[old_g.len() as int] == acts@[
                                        combo@[m2] as int
                                    ]);
                                }
                            }
                        }
                    }
                    m += 1;
                }
                proof {
                    assert(core_group_sound(*g, group@, idx - 1)) by {
                        assert(g.layer_wf(idx - 1));
                        assert forall|e: int| 0 <= e < group@.len() implies (#[trigger] group@[e])
                            < g.core@.len() && layer_acts(g.layers@[idx - 1]).contains(
                            group@[e],
                        ) by {
                            let m2 = choose|m2: int|
                                0 <= m2 < combo@.len() && group@[e] == acts@[combo@[m2] as int];
                            assert(acts@[combo@[m2] as int] == group@[e]);
                        }
                        assert forall|e: int, e2: int|
                            0 <= e < group@.len() && 0 <= e2 < group@.len() && (#[trigger] group@[e])
                                != (#[trigger] group@[e2]) implies !spec_has_pair(
                            layer_act_mutexes(g.layers@[idx - 1]),
                            group@[e],
                            group@[e2],
                        ) by {
                            let m2 = choose|m2: int|
                                0 <= m2 < combo@.len() && group@[e] == acts@[combo@[m2] as int];
                            let m3 = choose|m3: int|
                                0 <= m3 < combo@.len() && group@[e2] == acts@[combo@[m3] as int];
                            if spec_has_pair(am@, group@[e], group@[e2]) {
                                assert(spec_has_pair(am@, acts@[combo@[m2] as int], acts@[
                                    combo@[m3] as int
                                ]));
                                assert(search_pre.mutexes matches Some(lm) && spec_has_pair(
                                    lm@,
                                    combo@[m2],
                                    combo@[m3],
                                ));
                                assert(combo@[m2] != combo@[m3]);
                                if m2 < m3 {
                                    assert(!search_pre.spec_conflict(combo@[m2], combo@[m3]));
                                } else {
                                    assert(!search_pre.spec_conflict(combo@[m3], combo@[m2]));
                                    match search_pre.mutexes {
                                        Option::Some(lm2) => {
                                            lemma_has_pair_sym(lm2@, combo@[m3], combo@[m2]);
                                        },
                                        Option::None => {},
                                    }
                                }
                                assert(false);
                            }
                        }
                    }
                    assert forall|i2: int| 0 <= i2 < goals@.len() implies group_achieves(
                        *g,
                        group@,
                        #[trigger] goals@[i2],
                    ) by {
                        assert(combo@.len() == search_pre.n_goals());
                        assert(combo@[i2] < acts@.len());
                        assert(search_pre.sat@[i2]@[combo@[i2] as int]);
                        assert(g.spec_achieves(acts@[combo@[i2] as int] as int, goals@[i2]));
                        assert(group@.contains(acts@[combo@[i2] as int]));
                        let e2 = choose|e2: int|
                            0 <= e2 < group@.len() && group@[e2] == acts@[combo@[i2] as int];
                        assert(g.spec_achieves(group@[e2] as int, goals@[i2]));
                    }
                    assert(goals@.len() >= 1 ==> group@.len() >= 1) by {
                        assert(combo@.len() == goals@.len());
                    }
                }
                if idx == 2 {
                    let mut plan: Vec<Vec<usize>> = Vec::new();
                    let ghost group_view = group@;
                    plan.push(group);
                    proof {
                        assert(plan@.len() == 1);
                        assert(plan@[0]@ == group_view);
                        assert(group_grounded(*g, group_view)) by {
                            assert(g.layer_wf(1));
                            assert forall|e2: int, q: int|
                                0 <= e2 < group_view.len() && 0 <= q < g.core@[
                                    group_view[e2] as int
                                ].reqs@.len() implies g.initial@.contains(
                                #[trigger] g.core@[group_view[e2] as int].reqs@[q],
                            ) by {
                                assert(layer_acts(g.layers@[1]).contains(group_view[e2]));
                                let m2 = choose|m2: int|
                                    0 <= m2 < layer_acts(g.layers@[1]).len() && layer_acts(
                                        g.layers@[1],
                                    )[m2] == group_view[e2];
                                assert(g.spec_applicable(
                                    layer_acts(g.layers@[1])[m2] as int,
                                    layer_props(g.layers@[0]),
                                ));
                                assert(layer_props(g.layers@[0]).contains(
                                    g.core@[group_view[e2] as int].reqs@[q],
                                ));
                                assert(layer_props(g.layers@[0]) == g.initial@);
                            }
                        }
                        assert(core_plan_sound_for(*g, plan@, goals@)) by {
                            assert(core_group_sound(*g, plan@[0]@, 1));
                            assert(plan@[plan@.len() - 1]@ == group_view);
                        }
                    }
                    return Some(plan);
                }
                let ng2 = group.len();
                let mut next_goals: Vec<Lit> = Vec::new();
                let mut e: usize = 0;
                while e < ng2
                    invariant
                        g.wf(),
                        ng2 == group@.len(),
                        e <= ng2,
                        forall|e2: int| 0 <= e2 < group@.len() ==> (#[trigger] group@[e2]) < g.core@.len(),
                        forall|e2: int, q2: int|
                            #![trigger g.core@[group@[e2] as int].reqs@[q2]]
                            0 <= e2 < e && 0 <= q2 < g.core@[group@[e2] as int].reqs@.len()
                                ==> next_goals@.contains(g.core@[group@[e2] as int].reqs@[q2]),
                    decreases ng2 - e,
                {
                    let j = group[e];
                    let nr = g.core[j].reqs.len();
                    let mut q: usize = 0;
                    while q < nr
                        invariant
                            g.wf(),
                            ng2 == group@.len(),
                            e < ng2,
                            j == group@[e as int],
                            j < g.core@.len(),
                            nr == g.core@[j as int].reqs@.len(),
                            q <= nr,
                            forall|e2: int, q2: int|
                                #![trigger g.core@[group@[e2] as int].reqs@[q2]]
                                0 <= e2 < e && 0 <= q2 < g.core@[group@[e2] as int].reqs@.len()
                                    ==> next_goals@.contains(g.core@[group@[e2] as int].reqs@[q2]),
                            forall|q2: int|
                                0 <= q2 < q ==> next_goals@.contains(
                                    #[trigger] g.core@[j as int].reqs@[q2],
                                ),
                        decreases nr - q,
                    {
                        lits_insert(&mut next_goals, g.core[j].reqs[q]);
                        q += 1;
                    }
                    proof {
                        assert forall|e2: int, q2: int|
                            0 <= e2 < e + 1 && 0 <= q2 < g.core@[group@[e2] as int].reqs@.len()
                                implies next_goals@.contains(
                            #[trigger] g.core@[group@[e2] as int].reqs@[q2],
                        ) by {
                            if e2 == e as int {
                                assert(g.core@[j as int].reqs@[q2] == g.core@[
                                    group@[e2] as int
                                ].reqs@[q2]);
                            }
                        }
                    }
                    e += 1;
                }
                let sub_result = solve_rec(g, idx - 2, next_goals, memo);
                match sub_result {
                    Option::Some(p) => {
                        let mut p = p;
                        let ghost p_pre = p@;
                        let ghost group_view = group@;
                        p.push(group);
                        proof {
                            assert(p@.len() == idx as int / 2);
                            assert(p_pre.len() >= 1);
                            assert(core_plan_sound_for(*g, p_pre, next_goals@));
                            assert forall|t: int| 0 <= t < p@.len() implies core_group_sound(
                                *g,
                                (#[trigger] p@[t])@,
                                2 * t + 1,
                            ) by {
                                if t < p_pre.len() {
                                    assert(p@[t] == p_pre[t]);
                                } else {
                                    assert(2 * t + 1 == idx - 1);
                                }
                            }
                            assert(p@[0] == p_pre[0]);
                            assert(group_grounded(*g, p@[0]@));
                            assert(p@[p@.len() - 1]@ == group_view);
                            assert(group_supported(*g, group_view, p_pre[p_pre.len() - 1]@)) by {
                                assert forall|e2: int, q2: int|
                                    0 <= e2 < group_view.len() && 0 <= q2 < g.core@[
                                        group_view[e2] as int
                                    ].reqs@.len() implies group_achieves(
                                    *g,
                                    p_pre[p_pre.len() - 1]@,
                                    #[trigger] g.core@[group_view[e2] as int].reqs@[q2],
                                ) by {
                                    let req = g.core@[group_view[e2] as int].reqs@[q2];
                                    assert(next_goals@.contains(req));
                                    let i3 = choose|i3: int|
                                        0 <= i3 < next_goals@.len() && next_goals@[i3] == req;
                                    assert(group_achieves(
                                        *g,
                                        p_pre[p_pre.len() - 1]@,
                                        next_goals@[i3],
                                    ));
                                }
                            }
                            assert forall|t: int| 1 <= t < p@.len() implies group_supported(
                                *g,
                                (#[trigger] p@[t])@,
                                p@[t - 1]@,
                            ) by {
                                if t < p_pre.len() {
                                    assert(p@[t] == p_pre[t] && p@[t - 1] == p_pre[t - 1]);
                                } else {
                                    assert(p@[t]@ == group_view);
                                    assert(p@[t - 1] == p_pre[p_pre.len() - 1]);
                                }
                            }
                            assert forall|t: int|
                                0 <= t < p@.len() - 1 implies ((#[trigger] p@[t])@.len() >= 1 || (
                            forall|e2: int|
                                0 <= e2 < p@[t + 1]@.len() ==> g.core@[
                                    (#[trigger] p@[t + 1]@[e2]) as int
                                ].reqs@.len() == 0)) by {
                                if t < p_pre.len() - 1 {
                                    assert(p@[t] == p_pre[t] && p@[t + 1] == p_pre[t + 1]);
                                } else {
                                    assert(p@[t] == p_pre[p_pre.len() - 1]);
                                    assert(p@[t + 1]@ == group_view);
                                    if next_goals@.len() >= 1 {
                                        assert(p_pre[p_pre.len() - 1]@.len() >= 1);
                                    } else {
                                        assert forall|e2: int|
                                            0 <= e2 < group_view.len() implies g.core@[
                                            group_view[e2] as int
                                        ].reqs@.len() == 0 by {
                                            if g.core@[group_view[e2] as int].reqs@.len() > 0 {
                                                assert(next_goals@.contains(
                                                    g.core@[group_view[e2] as int].reqs@[0],
                                                ));
                                                assert(false);
                                            }
                                        }
                                    }
                                }
                            }
                            assert(core_plan_sound_for(*g, p@, goals@));
                        }
                        return Some(p);
                    },
                    Option::None => {},
                }
            },
        }
        proof {
            search.lemma_digits_bounded();
            lemma_seq_pos_bound(search.digits(), search.base(), search.n_actions as int);
            if search_pre.n_goals() == 0 {
                assert(search.digits() =~= search_pre.digits());
            }
        }
    }
}

/// A backward-search strategy over a finished plan graph.  Any
/// implementation must return only sound plans: one group per step, each
/// group standing for a core action group of the step's action layer that
/// is applicable and mutually conflict-free there, with the last group
/// producing every goal, each group's preconditions produced by the group
/// before it, and the first group's preconditions holding initially.
pub trait GraphPlanSolver<AId: Clone, PId: Clone> {
    /// Searches the graph for a sequence of action groups that satisfies
    /// its goals, or reports that none can be extracted.
    fn search(&self, plangraph: &PlanGraph<AId, PId>) -> (r: Option<Solution<AId, PId>>)
        requires
            plangraph.wf(),
            plangraph.layers@.len() >= 3,
        ensures
            (r matches Some(plan) ==> plan@.len() == (plangraph.layers@.len() - 1) / 2 && (
            exists|cp: Seq<Vec<usize>>|
                plan_represents(*plangraph, plan@, cp) && core_plan_sound_for(
                    *plangraph,
                    cp,
                    plangraph.goals@,
                ))),
    ;
}

/// The reference strategy: memoized, backtracking backward extraction
/// driven by the lazy combination enumeration, one subproblem per
/// (layer, goal set) pair.
pub struct SimpleSolver;

impl Default for SimpleSolver {
    fn default() -> (r: Self)
        ensures
            r == SimpleSolver,
    {
        SimpleSolver
    }
}

impl<AId: Clone, PId: Clone> GraphPlanSolver<AId, PId> for SimpleSolver {
    fn search(&self, plangraph: &PlanGraph<AId, PId>) -> (r: Option<Solution<AId, PId>>) {
        let mut memo: Vec<(usize, Vec<Lit>)> = Vec::new();
        let goals0 = crate::plangraph::copy_lits(&plangraph.goals);
        let ghost goals_view = goals0@;
        let idx = plangraph.layers.len() - 1;
        let core_plan = solve_rec(plangraph, idx, goals0, &mut memo);
        match core_plan {
            Option::None => None,
            Option::Some(p) => {
                let np = p.len();
                let ghost p_snap = p@;
                let mut plan: Solution<AId, PId> = Vec::new();
                let mut t: usize = 0;
                while t < np
                    invariant
                        plangraph.wf(),
                        np == p_snap.len(),
                        p@ == p_snap,
                        np == (plangraph.layers@.len() - 1) / 2,
                        t <= np,
                        plan@.len() == t,
                        core_plan_sound_for(*plangraph, p_snap, goals_view),
                        forall|t2: int| 0 <= t2 < t ==> (#[trigger] p_snap[t2])@.len()
                            == plan@[t2]@.len(),
                        forall|t2: int, m: int|
                            #![trigger plan@[t2]@[m]]
                            0 <= t2 < t && 0 <= m < plan@[t2]@.len() ==> plangraph.spec_represents(
                                plan@[t2]@[m],
                                p_snap[t2]@[m] as int,
                            ),
                    decreases np - t,
                {
                    let group = &p[t];
                    proof {
                        assert(core_group_sound(*plangraph, p_snap[t as int]@, 2 * (t as int) + 1));
                    }
                    let ngz = group.len();
                    let mut out: Vec<Action<AId, PId>> = Vec::new();
                    let mut e: usize = 0;
                    while e < ngz
                        invariant
                            plangraph.wf(),
                            t < np,
                            p@ == p_snap,
                            np == p_snap.len(),
                            group@ == p_snap[t as int]@,
                            ngz == group@.len(),
                            e <= ngz,
                            out@.len() == e,
                            forall|e2: int|
                                0 <= e2 < group@.len() ==> (#[trigger] group@[e2])
                                    < plangraph.core@.len(),
                            forall|e2: int|
                                0 <= e2 < e ==> plangraph.spec_represents(
                                    #[trigger] out@[e2],
                                    group@[e2] as int,
                                ),
                        decreases ngz - e,
                    {
                        let a = plangraph.action_value(group[e]);
                        out.push(a);
                        e += 1;
                    }
                    let ghost plan_pre = plan@;
                    plan.push(out);
                    proof {
                        let ghost t2 = t as int;
                        assert(plan@[t2]@.len() == p_snap[t2]@.len());
                        assert forall|t3: int, m: int|
                            0 <= t3 < t + 1 && 0 <= m < plan@[t3]@.len()
                                implies plangraph.spec_represents(
                            #[trigger] plan@[t3]@[m],
                            p_snap[t3]@[m] as int,
                        ) by {
                            if t3 < t2 {
                                assert(plan@[t3] == plan_pre[t3]);
                            }
                        }
                    }
                    t += 1;
                }
                proof {
                    assert(plan_represents(*plangraph, plan@, p_snap));
                    assert(goals_view == plangraph.goals@);
                    assert(core_plan_sound_for(*plangraph, p_snap, plangraph.goals@));
                }
                Some(plan)
            },
        }
    }
}

/// Whether every action of `out` is a clone of some action of `src`.
pub open spec fn all_cloned_from<AId: Clone, PId: Clone>(
    src: Seq<Action<AId, PId>>,
    out: Seq<Action<AId, PId>>,
) -> bool {
    forall|m: int|
        0 <= m < out.len() ==> exists|k: int|
            0 <= k < src.len() && crate::action::action_cloned(src[k], #[trigger] out[m])
}

/// Whether `k` is one of the selected positions.
pub open spec fn spec_selected(sel: Seq<int>, k: int) -> bool {
    sel.contains(k)
}

/// The selection `sel` lists, in ascending order, the positions among the
/// first `m` entries of `acts` whose clones make up `out`; when the
/// identifier types' `==` is specified, a position is kept exactly when no
/// earlier position holds an action of the same name.
pub open spec fn spec_selection_upto<
    AId: Clone + PartialEq + PartialEqSpec,
    PId: Clone + PartialEq + PartialEqSpec,
>(acts: Seq<Action<AId, PId>>, out: Seq<Action<AId, PId>>, sel: Seq<int>, m: int) -> bool {
    &&& sel.len() == out.len()
    &&& forall|m2: int| 0 <= m2 < sel.len() ==> 0 <= #[trigger] sel[m2] < m
    &&& forall|m2: int, m3: int| 0 <= m2 < m3 < sel.len() ==> sel[m2] < sel[m3]
    &&& forall|m2: int|
        0 <= m2 < out.len() ==> crate::action::action_cloned(acts[sel[m2]], #[trigger] out[m2])
    &&& crate::action::ids_eq_specified::<AId, PId>() ==> {
        &&& forall|m2: int, k2: int|
            #![trigger sel[m2], acts[k2]]
            0 <= m2 < sel.len() && 0 <= k2 < sel[m2] ==> !crate::action::action_same_name(
                acts[k2],
                acts[sel[m2]],
            )
        &&& forall|k: int|
            0 <= k < m ==> (spec_selected(sel, k) || crate::action::has_earlier_same_name(
                acts,
                #[trigger] (k + 0),
            ))
    }
}

/// The whole-set form of `spec_selection_upto`: `out` is the set view of
/// `acts`, one clone per distinct name, first occurrences in order.
pub open spec fn spec_first_occurrences<
    AId: Clone + PartialEq + PartialEqSpec,
    PId: Clone + PartialEq + PartialEqSpec,
>(acts: Seq<Action<AId, PId>>, out: Seq<Action<AId, PId>>, sel: Seq<int>) -> bool {
    spec_selection_upto(acts, out, sel, acts.len() as int)
}

/// One combination produced by the enumeration: the chosen action for each
/// goal, in goal order.
#[derive(Debug, PartialEq)]
pub struct ActionCombination<AId, PId> {
    pub acts: Vec<Action<AId, PId>>,
}

impl<AId: Clone, PId: Clone> ActionCombination<AId, PId> {
    /// A combination holding the given per-goal choices.
    pub fn new(acts: Vec<Action<AId, PId>>) -> (r: Self)
        ensures
            r.acts == acts,
    {
        ActionCombination { acts }
    }

    /// The chosen actions, one per goal, in goal order.
    pub fn as_vec(&self) -> (r: Vec<Action<AId, PId>>)
        ensures
            r@.len() == self.acts@.len(),
            forall|m: int|
                0 <= m < r@.len() ==> crate::action::action_cloned(self.acts@[m], #[trigger] r@[m]),
    {
        let n = self.acts.len();
        let mut r: Vec<Action<AId, PId>> = Vec::new();
        let mut m: usize = 0;
        while m < n
            invariant
                n == self.acts@.len(),
                m <= n,
                r@.len() == m,
                forall|m2: int|
                    0 <= m2 < m ==> crate::action::action_cloned(
                        self.acts@[m2],
                        #[trigger] r@[m2],
                    ),
            decreases n - m,
        {
            r.push(self.acts[m].clone());
            m += 1;
        }
        r
    }
}

impl<AId: Clone + PartialEq + PartialEqSpec, PId: Clone + PartialEq + PartialEqSpec> ActionCombination<
    AId,
    PId,
> {
    /// The distinct chosen actions: an action picked for several goals
    /// appears once, at its first goal position, duplicates decided by the
    /// actions' name equality.
    pub fn as_set(&self) -> (r: Vec<Action<AId, PId>>)
        ensures
            r@.len() <= self.acts@.len(),
            exists|sel: Seq<int>| #[trigger] spec_first_occurrences(self.acts@, r@, sel),
    {
        let r = first_occurrence_set(&self.acts, self.acts.len());
        proof {
            let sel = choose|sel: Seq<int>|
                #[trigger] spec_selection_upto(self.acts@, r@, sel, self.acts@.len() as int);
            assert(spec_first_occurrences(self.acts@, r@, sel));
        }
        r
    }
}

/// Whether some position of `acts` before `j` holds an action of the same
/// name as the one at `j`: the duplicate test of the set view.
fn scan_has_earlier<
    AId: Clone + PartialEq + PartialEqSpec,
    PId: Clone + PartialEq + PartialEqSpec,
>(acts: &Vec<Action<AId, PId>>, j: usize) -> (r: bool)
    requires
        j < acts@.len(),
    ensures
        crate::action::ids_eq_specified::<AId, PId>() ==> r == crate::action::has_earlier_same_name(
            acts@,
            j as int,
        ),
{
    let mut k: usize = 0;
    let mut seen = false;
    while k < j
        invariant
            j < acts@.len(),
            k <= j,
            crate::action::ids_eq_specified::<AId, PId>() ==> (seen == exists|k2: int|
                0 <= k2 < k && crate::action::action_same_name(acts@[k2], acts@[j as int])),
        decreases j - k,
    {
        if crate::action::same_action_name(&acts[k], &acts[j]) {
            proof {
                if crate::action::ids_eq_specified::<AId, PId>() {
                    assert(crate::action::action_same_name(acts@[k as int], acts@[j as int]));
                }
            }
            seen = true;
        }
        k += 1;
    }
    seen
}

/// The clones of the first occurrence of each action name among the first
/// `m` entries of `acts`, in order of first appearance.
fn first_occurrence_set<
    AId: Clone + PartialEq + PartialEqSpec,
    PId: Clone + PartialEq + PartialEqSpec,
>(acts: &Vec<Action<AId, PId>>, m: usize) -> (r: Vec<Action<AId, PId>>)
    requires
        m <= acts@.len(),
    ensures
        r@.len() <= m,
        exists|sel: Seq<int>| #[trigger] spec_selection_upto(acts@, r@, sel, m as int),
    decreases m,
{
    if m == 0 {
        let r: Vec<Action<AId, PId>> = Vec::new();
        proof {
            let sel = Seq::<int>::empty();
            assert(spec_selection_upto(acts@, r@, sel, 0));
        }
        r
    } else {
        let mut r = first_occurrence_set(acts, m - 1);
        let ghost sub_sel = choose|sel: Seq<int>|
            #[trigger] spec_selection_upto(acts@, r@, sel, m as int - 1);
        if !scan_has_earlier(acts, m - 1) {
            let ghost old_r = r@;
            r.push(acts[m - 1].clone());
            proof {
                let sel = sub_sel.push(m as int - 1);
                assert(sel[sub_sel.len() as int] == m as int - 1);
                assert forall|m2: int| 0 <= m2 < r@.len() implies crate::action::action_cloned(
                    acts@[sel[m2]],
                    #[trigger] r@[m2],
                ) by {
                    if m2 < old_r.len() {
                        assert(r@[m2] == old_r[m2] && sel[m2] == sub_sel[m2]);
                    }
                }
                if crate::action::ids_eq_specified::<AId, PId>() {
                    assert forall|k: int|
                        0 <= k < m implies (spec_selected(sel, k)
                        || crate::action::has_earlier_same_name(acts@, #[trigger] (k + 0))) by {
                        if k < m as int - 1 {
                            if spec_selected(sub_sel, k) {
                                let mi = choose|mi: int|
                                    0 <= mi < sub_sel.len() && sub_sel[mi] == k;
                                assert(sel[mi] == k);
                                assert(spec_selected(sel, k));
                            }
                        } else {
                            assert(spec_selected(sel, k));
                        }
                    }
                }
                assert(spec_selection_upto(acts@, r@, sel, m as int));
            }
        } else {
            proof {
                let sel = sub_sel;
                if crate::action::ids_eq_specified::<AId, PId>() {
                    assert(crate::action::has_earlier_same_name(acts@, m as int - 1));
                    assert forall|k: int|
                        0 <= k < m implies (spec_selected(sel, k)
                        || crate::action::has_earlier_same_name(acts@, #[trigger] (k + 0))) by {}
                }
                assert(spec_selection_upto(acts@, r@, sel, m as int));
            }
        }
        r
    }
}

/// The description of one combination-enumeration problem: an ordered goal
/// list, a candidate action set, and optionally the conflict relation the
/// chosen actions must avoid.
pub struct GoalSetActionGenerator<AId, PId> {
    pub goals: Vec<Proposition<PId>>,
    pub actions: Vec<Action<AId, PId>>,
    pub mutexes: Option<MutexPairs<Action<AId, PId>>>,
}

impl<AId, PId> GoalSetActionGenerator<AId, PId> {
    /// Describes the problem of jointly achieving `goals` from `actions`
    /// under `mutexes`.
    pub fn new(
        goals: Vec<Proposition<PId>>,
        actions: Vec<Action<AId, PId>>,
        mutexes: Option<MutexPairs<Action<AId, PId>>>,
    ) -> (r: Self)
        ensures
            r.goals == goals,
            r.actions == actions,
            r.mutexes == mutexes,
    {
        GoalSetActionGenerator { goals, actions, mutexes }
    }
}

/// The restartable enumeration of a generator's valid combinations: each
/// call of `next` yields one more combination in which every chosen
/// action's effects include its goal and no two chosen actions are in
/// conflict, until the enumeration is exhausted.
pub struct ActionCombinationIterator<AId, PId> {
    pub actions: Vec<Action<AId, PId>>,
    pub goals: Vec<Proposition<PId>>,
    pub search: CombinationSearch,
}

impl<AId, PId> ActionCombinationIterator<AId, PId> {
    pub open spec fn wf(self) -> bool {
        &&& self.search.wf()
        &&& self.search.n_actions == self.actions@.len()
        &&& self.search.n_goals() == self.goals@.len()
    }
}

impl<
    AId: Clone + PartialEq + PartialEqSpec + PartialOrd,
    PId: Clone + PartialEq + PartialEqSpec,
> ActionCombinationIterator<AId, PId> {
    /// Prepares the enumeration for `action_combinations`: orders the
    /// candidate actions by name, records which candidate satisfies which
    /// goal, and carries the conflict relation over to candidate
    /// positions.
    pub fn new(action_combinations: GoalSetActionGenerator<AId, PId>) -> (r: Self)
        ensures
            r.wf(),
            !r.search.goals_met,
            forall|j: int|
                0 <= j < r.search.n_goals() ==> (#[trigger] r.search.attempts@[j]) is None,
            forall|j: int|
                0 <= j < r.search.n_goals() ==> (#[trigger] r.search.accum@[j]) is None,
            r.search.n_actions == r.actions@.len(),
            action_combinations.mutexes is None ==> r.search.mutexes is None,
            (action_combinations.mutexes matches Some(mp) && mp@.len() == 0) ==> (
            r.search.mutexes matches Some(lm) && lm@.len() == 0),
            crate::action::ids_eq_specified::<AId, PId>() ==> (forall|k: int|
                0 <= k < action_combinations.actions@.len() ==> crate::action::name_represented_in(
                    r.actions@,
                    #[trigger] action_combinations.actions@[k],
                )),
            r.goals == action_combinations.goals,
            forall|m: int|
                0 <= m < r.actions@.len() ==> action_combinations.actions@.contains(
                    #[trigger] r.actions@[m],
                ),
            eq_is_structural::<Proposition<PId>>() ==> forall|i: int, j: int|
                #![trigger r.search.sat@[i]@[j]]
                0 <= i < r.goals@.len() && 0 <= j < r.actions@.len() ==> (r.search.sat@[i]@[j]
                    == r.actions@[j].effects@.contains(r.goals@[i])),
    {
        let GoalSetActionGenerator { goals, actions, mutexes } = action_combinations;
        let sorted = crate::action::sorted_action_set(actions);
        let ng = goals.len();
        let na = sorted.len();
        let mut sat: Vec<Vec<bool>> = Vec::new();
        let mut i: usize = 0;
        while i < ng
            invariant
                ng == goals@.len(),
                na == sorted@.len(),
                i <= ng,
                sat@.len() == i,
                forall|i2: int| 0 <= i2 < i ==> (#[trigger] sat@[i2])@.len() == na,
                eq_is_structural::<Proposition<PId>>() ==> forall|i2: int, j2: int|
                    #![trigger sat@[i2]@[j2]]
                    0 <= i2 < i && 0 <= j2 < na ==> (sat@[i2]@[j2] == sorted@[
                        j2
                    ].effects@.contains(goals@[i2])),
            decreases ng - i,
        {
            let mut row: Vec<bool> = Vec::new();
            let mut j: usize = 0;
            while j < na
                invariant
                    na == sorted@.len(),
                    ng == goals@.len(),
                    i < ng,
                    j <= na,
                    row@.len() == j,
                    eq_is_structural::<Proposition<PId>>() ==> forall|j2: int|
                        #![trigger row@[j2]]
                        0 <= j2 < j ==> (row@[j2] == sorted@[j2].effects@.contains(
                            goals@[i as int],
                        )),
                decreases na - j,
            {
                let effs = &sorted[j].effects;
                let ne = effs.len();
                let mut hit = false;
                let mut e: usize = 0;
                while e < ne
                    invariant
                        ne == effs@.len(),
                        effs@ == sorted@[j as int].effects@,
                        j < na,
                        na == sorted@.len(),
                        e <= ne,
                        i < ng,
                        ng == goals@.len(),
                        eq_is_structural::<Proposition<PId>>() ==> (hit == exists|e2: int|
                            0 <= e2 < e && effs@[e2] == goals@[i as int]),
                    decreases ne - e,
                {
                    if &effs[e] == &goals[i] {
                        hit = true;
                        proof {
                            if eq_is_structural::<Proposition<PId>>() {
                                assert(effs@[e as int] == goals@[i as int]);
                            }
                        }
                    }
                    e += 1;
                }
                proof {
                    if eq_is_structural::<Proposition<PId>>() {
                        assert(hit == effs@.contains(goals@[i as int])) by {
                            if effs@.contains(goals@[i as int]) {
                                let e2 = choose|e2: int|
                                    0 <= e2 < effs@.len() && effs@[e2] == goals@[i as int];
                                assert(0 <= e2 < ne && effs@[e2] == goals@[i as int]);
                            }
                        }
                    }
                }
                row.push(hit);
                j += 1;
            }
            sat.push(row);
            i += 1;
        }
        let local: Option<MutexPairs<usize>> = match mutexes {
            Option::None => None,
            Option::Some(mp) => {
                let mut lm: MutexPairs<usize> = MutexPairs::new();
                let npairs = mp.pairs().len();
                let mut k: usize = 0;
                while k < npairs
                    invariant
                        npairs == mp@.len(),
                        k <= npairs,
                        mp@.len() == 0 ==> lm@.len() == 0,
                    decreases npairs - k,
                {
                    let pair = &mp.pairs()[k];
                    let px = position_of_action(&sorted, &pair.0);
                    let py = position_of_action(&sorted, &pair.1);
                    match (px, py) {
                        (Option::Some(ix), Option::Some(iy)) => {
                            lm.insert(ix, iy);
                        },
                        _ => {},
                    }
                    k += 1;
                }
                Some(lm)
            },
        };
        let mut attempts: Vec<Option<Vec<usize>>> = Vec::new();
        let mut accum: Vec<Option<usize>> = Vec::new();
        let mut t: usize = 0;
        while t < ng
            invariant
                t <= ng,
                attempts@.len() == t,
                accum@.len() == t,
                forall|m: int| 0 <= m < t ==> (#[trigger] attempts@[m]) is None,
                forall|m: int| 0 <= m < t ==> (#[trigger] accum@[m]) is None,
            decreases ng - t,
        {
            attempts.push(None);
            accum.push(None);
            t += 1;
        }
        let search = CombinationSearch {
            n_actions: na,
            sat,
            mutexes: local,
            attempts,
            accum,
            goals_met: false,
        };
        proof {
            assert(search.dims_ok());
            assert(search.attempts_ok());
            assert(search.prefix_ok(0));
        }
        ActionCombinationIterator { actions: sorted, goals, search }
    }

    /// The next valid combination, or nothing once the enumeration from
    /// the current state is exhausted.
    pub fn next(&mut self) -> (r: Option<ActionCombination<AId, PId>>)
        requires
            old(self).wf(),
        ensures
            final(self).wf(),
            final(self).actions == old(self).actions,
            final(self).goals == old(self).goals,
            old(self).search.spec_fresh_and_satisfiable() ==> r is Some,
            (r matches Some(c) ==> {
                &&& c.acts@.len() == old(self).goals@.len()
                &&& exists|cs: Seq<usize>|
                    cs.len() == c.acts@.len() && (forall|i: int|
                        0 <= i < cs.len() ==> (#[trigger] cs[i]) < old(self).actions@.len()
                            && old(self).search.sat@[i]@[cs[i] as int]
                            && crate::action::action_cloned(
                            old(self).actions@[cs[i] as int],
                            c.acts@[i],
                        )) && (forall|i: int, j: int|
                        #![trigger cs[i], cs[j]]
                        0 <= i < j < cs.len() ==> !old(self).search.spec_conflict(cs[i], cs[j]))
            }),
    {
        match self.search.advance() {
            Option::None => None,
            Option::Some(cs) => {
                let nc = cs.len();
                let mut out: Vec<Action<AId, PId>> = Vec::new();
                let mut m: usize = 0;
                while m < nc
                    invariant
                        nc == cs@.len(),
                        m <= nc,
                        out@.len() == m,
                        forall|i: int| 0 <= i < cs@.len() ==> (#[trigger] cs@[i]) < self.actions@.len(),
                        forall|i: int|
                            0 <= i < m ==> crate::action::action_cloned(
                                self.actions@[cs@[i] as int],
                                #[trigger] out@[i],
                            ),
                    decreases nc - m,
                {
                    out.push(self.actions[cs[m]].clone());
                    m += 1;
                }
                proof {
                    let ghost w = cs@;
                    assert(forall|i: int|
                        0 <= i < w.len() ==> (#[trigger] w[i]) < old(self).actions@.len() && old(
                            self,
                        ).search.sat@[i]@[w[i] as int]);
                }
                Some(ActionCombination { acts: out })
            },
        }
    }
}

/// The position in `v` of the first action equal to `x`, going by the
/// runtime equality of action names.
fn position_of_action<
    AId: Clone + PartialEq + PartialEqSpec,
    PId: Clone + PartialEq + PartialEqSpec,
>(v: &Vec<Action<AId, PId>>, x: &Action<AId, PId>) -> (r: Option<usize>)
    ensures
        (r matches Some(p) ==> p < v@.len()),
{
    let n = v.len();
    let mut k: usize = 0;
    while k < n
        invariant
            n == v@.len(),
            k <= n,
        decreases n - k,
    {
        if &v[k] == x {
            return Some(k);
        }
        k += 1;
    }
    None
}

} // verus!
