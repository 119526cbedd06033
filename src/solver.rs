use vstd::prelude::*;

use std::collections::VecDeque;
use vec_map::VecMap;

use crate::clause::{lits_distinct, lits_wf, Clause, WatchedUpdate};
use crate::cnf::{
    clause_false, clause_sat, entails, entails_lit, formula_sat, lemma_refuted_clause, lemma_resolution,
    lemma_unit_entailed, lit_false, lit_true, satisfiable, Model, lemma_entails_push,
    lemma_entails_lit_push, lemma_unsat_push, lemma_empty_clause_unsat, lits_vars, formula_vars, pending_unit,
};
use crate::decision_provider::DecisionProvider;
use crate::literal::Literal;
use crate::maps::{
    bool_entries, bool_map_get, bool_map_insert, bool_map_new, bool_map_remove, list_entries,
    list_map_insert, list_map_new, list_map_remove, usize_entries, usize_map_get, usize_map_insert,
    usize_map_new, usize_map_remove,
};
use crate::measure::{level_at, lemma_level_at, limits_increasing, progress};
use crate::parser::{clause_of, Dimacs};

verus! {

/// The outcome of a search.
#[derive(Debug, PartialEq, Eq, Structural)]
pub enum SolverResult {
    Sat,
    Unsat,
}

/// The two sequences hold the same literals.
pub open spec fn same_lits(a: Seq<Literal>, b: Seq<Literal>) -> bool {
    forall|l: Literal| a.contains(l) <==> b.contains(l)
}

/// A CDCL solver over one formula. Clauses live in an arena and are named
/// by their position in it: the input clauses first, in order, then the
/// learned ones.
pub struct Solver {
    trivially_unsat: bool,
    clauses: Vec<Clause>,
    learned_clauses: Vec<usize>,
    bcp_queue: VecDeque<Literal>,
    decision_provider: DecisionProvider,
    restart: (usize, usize, usize),
    conflicts: usize,
    // for each variable, its value
    assigns: VecMap<bool>,
    // for each variable, the clause that implied its value
    reason: VecMap<usize>,
    // for each variable, the decision level it was assigned at
    level: VecMap<usize>,
    // assigned literals in chronological order
    trail: Vec<Literal>,
    // positions of the trail where each decision level begins
    trail_lim: Vec<usize>,
    // indexed by literal index, the clauses that watch that literal
    watches: VecMap<Vec<usize>>,
    formula: Ghost<Seq<Seq<Literal>>>,
    vars: Ghost<Set<nat>>,
}

impl Solver {
    /// The input clauses added so far.
    pub closed spec fn formula(&self) -> Seq<Seq<Literal>> {
        self.formula@
    }

    /// The current assignment.
    pub closed spec fn model(&self) -> Model {
        bool_entries(self.assigns)
    }

    /// The current decision level: the number of levels begun so far.
    pub open spec fn current_level(&self) -> nat {
        self.limits().len()
    }

    /// Whether the formula was found unsatisfiable while its clauses were
    /// added.
    pub closed spec fn is_trivially_unsat(&self) -> bool {
        self.trivially_unsat
    }

    /// The assigned literals, in order.
    pub closed spec fn trail_seq(&self) -> Seq<Literal> {
        self.trail@
    }

    /// The trail positions where the decision levels begin.
    pub closed spec fn limits(&self) -> Seq<usize> {
        self.trail_lim@
    }

    /// The literals waiting for propagation.
    pub closed spec fn queue(&self) -> Seq<Literal> {
        self.bcp_queue@
    }

    /// The assignment is the one the trail writes: every trail literal is
    /// true, and every assigned variable is on the trail.
    pub open spec fn model_of_trail(&self) -> bool {
        &&& forall|i: int| 0 <= i < self.trail_seq().len() ==> lit_true(#[trigger] self.trail_seq()[i], self.model())
        &&& forall|v: nat| #[trigger] self.model().contains_key(v) ==> exists|i: int|
            0 <= i < self.trail_seq().len() && (#[trigger] self.trail_seq()[i]).spec_var() == v
    }

    /// A well-formed solver's assignment is the one its trail writes.
    pub proof fn lemma_model_of_trail(&self)
        requires
            self.wf(),
            !self.is_trivially_unsat(),
        ensures
            self.model_of_trail(),
    {
        assert(self.assigns_ok());
        assert(self.trail_seq() == self.trail@);
        assert forall|v: nat| #[trigger] self.model().contains_key(v) implies exists|i: int|
            0 <= i < self.trail_seq().len() && (#[trigger] self.trail_seq()[i]).spec_var() == v by {
            let i = choose|i: int| 0 <= i < self.trail@.len() && (#[trigger] self.trail@[i]).spec_var() == v;
            assert(self.trail_seq()[i].spec_var() == v);
        }
    }

    /// The variables of the formula.
    pub closed spec fn vars(&self) -> Set<nat> {
        self.vars@
    }

    /// The clauses held by the solver.
    pub closed spec fn clause_list(&self) -> Seq<Seq<Literal>> {
        self.clauses@.map_values(|c: Clause| c@)
    }

    spec fn trail_ok(&self) -> bool {
        let t = self.trail@;
        &&& lits_wf(t)
        &&& forall|i: int, j: int|
            0 <= i < j < t.len() ==> (#[trigger] t[i]).spec_var() != (#[trigger] t[j]).spec_var()
        &&& forall|i: int| 0 <= i < t.len() ==> self.vars@.contains((#[trigger] t[i]).spec_var())
        &&& limits_increasing(self.trail_lim@)
        &&& forall|k: int| 0 <= k < self.trail_lim@.len() ==> #[trigger] self.trail_lim@[k] < t.len()
    }

    spec fn assigns_ok(&self) -> bool {
        let t = self.trail@;
        let m = self.model();
        &&& forall|i: int| 0 <= i < t.len() ==> lit_true(#[trigger] t[i], m)
        &&& forall|v: nat| #[trigger]
            m.contains_key(v) ==> exists|i: int| 0 <= i < t.len() && (#[trigger] t[i]).spec_var() == v
    }

    spec fn levels_ok(&self) -> bool {
        let t = self.trail@;
        let l = usize_entries(self.level);
        forall|i: int|
            0 <= i < t.len() ==> l.contains_key((#[trigger] t[i]).spec_var()) && l[t[i].spec_var()]
                == level_at(self.trail_lim@, i)
    }

    /// The reason of trail position `i`: a clause that holds the literal,
    /// whose other literals were refuted earlier on the trail.
    spec fn reason_ok_at(&self, i: int) -> bool {
        let t = self.trail@;
        let k = usize_entries(self.reason)[t[i].spec_var()] as int;
        &&& 0 <= k < self.clauses@.len()
        &&& self.clauses@[k]@.contains(t[i])
        &&& forall|l: Literal| #[trigger]
            self.clauses@[k]@.contains(l) && l != t[i] ==> exists|j: int|
                0 <= j < i && #[trigger] t[j] == l.spec_neg()
    }

    spec fn reasons_ok(&self) -> bool {
        let t = self.trail@;
        let r = usize_entries(self.reason);
        &&& forall|i: int|
            0 <= i < t.len() ==> (r.contains_key((#[trigger] t[i]).spec_var())
                <==> !self.trail_lim@.contains(i as usize))
        &&& forall|v: nat| #[trigger]
            r.contains_key(v) ==> exists|i: int| 0 <= i < t.len() && (#[trigger] t[i]).spec_var() == v
        &&& forall|i: int|
            0 <= i < t.len() && r.contains_key((#[trigger] t[i]).spec_var()) ==> self.reason_ok_at(i)
    }

    spec fn clause_ok(&self, c: Seq<Literal>) -> bool {
        &&& c.len() >= 1
        &&& lits_wf(c)
        &&& lits_distinct(c)
        &&& forall|i: int| 0 <= i < c.len() ==> self.vars@.contains((#[trigger] c[i]).spec_var())
        &&& entails(self.formula@, c)
    }

    spec fn clauses_ok(&self) -> bool {
        let w = list_entries(self.watches);
        &&& forall|k: int| 0 <= k < self.clauses@.len() ==> self.clause_ok((#[trigger] self.clauses@[k])@)
        &&& self.clauses@.len() >= self.formula@.len()
        &&& forall|j: int|
            0 <= j < self.formula@.len() ==> same_lits((#[trigger] self.clauses@[j])@, self.formula@[j])
        &&& forall|key: nat, i: int|
            w.contains_key(key) && 0 <= i < w[key].len() ==> #[trigger] w[key][i] < self.clauses@.len()
    }

    spec fn roots_ok(&self) -> bool {
        let t = self.trail@;
        forall|i: int|
            0 <= i < t.len() && (self.trail_lim@.len() == 0 || i < self.trail_lim@[0]) ==> entails_lit(
                self.formula@,
                #[trigger] t[i],
            )
    }

    spec fn queue_ok(&self) -> bool {
        forall|k: int| 0 <= k < self.bcp_queue@.len() ==> self.trail@.contains(#[trigger] self.bcp_queue@[k])
    }

    spec fn heuristic_ok(&self) -> bool {
        let d = self.decision_provider@;
        &&& self.decision_provider.wf()
        &&& self.vars@.finite()
        &&& forall|v: nat| #[trigger] self.vars@.contains(v) ==> v < usize::MAX && d.contains_key(v as usize)
        &&& forall|v: usize| #[trigger] d.contains_key(v) ==> self.vars@.contains(v as nat)
    }

    /// The search state is consistent: the trail, the assignment, levels and
    /// reasons agree; every clause follows from the formula; the literals
    /// assigned before the first decision follow from the formula.
    spec fn inv(&self) -> bool {
        &&& !self.trivially_unsat
        &&& self.trail_ok()
        &&& self.assigns_ok()
        &&& self.levels_ok()
        &&& self.reasons_ok()
        &&& self.clauses_ok()
        &&& self.roots_ok()
        &&& self.queue_ok()
        &&& self.heuristic_ok()
    }

    /// The solver is well formed: either it found the formula trivially
    /// unsatisfiable, or its search state is consistent.
    pub closed spec fn wf(&self) -> bool {
        if self.trivially_unsat {
            !satisfiable(self.formula@)
        } else {
            self.inv() && self.watch_listed() && self.units_assigned()
        }
    }

    /// Every clause of one literal has it assigned before the first
    /// decision.
    spec fn units_assigned(&self) -> bool {
        forall|k: int| #![trigger self.clauses@[k]]
            0 <= k < self.clauses@.len() && self.clauses@[k]@.len() == 1 ==> exists|i: int|
                0 <= i < self.trail@.len() && (self.trail_lim@.len() == 0 || i < self.trail_lim@[0])
                    && #[trigger] self.trail@[i].spec_var() == self.clauses@[k]@[0].spec_var()
    }
}

impl Solver {
    fn new() -> (r: Solver)
        ensures
            r.inv(),
            r.formula@ == Seq::<Seq<Literal>>::empty(),
            r.vars@ == Set::<nat>::empty(),
            r.trail@.len() == 0,
            r.trail_lim@.len() == 0,
            r.clauses@.len() == 0,
            r.bcp_queue@.len() == 0,
    {
        let r = Solver {
            trivially_unsat: false,
            clauses: Vec::new(),
            learned_clauses: Vec::new(),
            bcp_queue: VecDeque::new(),
            decision_provider: DecisionProvider::new(),
            restart: (100, 100, 100),
            conflicts: 0,
            assigns: bool_map_new(),
            reason: usize_map_new(),
            level: usize_map_new(),
            trail: Vec::new(),
            trail_lim: Vec::new(),
            watches: list_map_new(),
            formula: Ghost(Seq::empty()),
            vars: Ghost(Set::empty()),
        };
        proof {
            assert(r.decision_provider@.dom() =~= Set::empty());
        }
        r
    }

    /// Assigns the literal, with the clause that forced it, or as a new
    /// decision level when there is none. Fails where the literal is false
    /// already, and does nothing where it is true.
    #[verifier::spinoff_prover]
    fn store_assignment(&mut self, literal: Literal, clause: Option<usize>) -> (r: Result<(), ()>)
        requires
            old(self).inv(),
            literal.wf(),
            old(self).vars@.contains(literal.spec_var()),
            clause.is_some() ==> {
                let k = clause.unwrap() as int;
                &&& 0 <= k < old(self).clauses@.len()
                &&& old(self).clauses@[k]@.contains(literal)
                &&& forall|l: Literal| #[trigger]
                    old(self).clauses@[k]@.contains(l) && l != literal ==> lit_false(l, old(self).model())
            },
        ensures
            final(self).inv(),
            r.is_err() == lit_false(literal, old(self).model()),
            old(self).model().contains_key(literal.spec_var()) ==> *final(self) == *old(self),
            !old(self).model().contains_key(literal.spec_var()) ==> {
                &&& final(self).trail@ == old(self).trail@.push(literal)
                &&& final(self).trail_lim@ == (if clause.is_none() {
                    old(self).trail_lim@.push(old(self).trail@.len() as usize)
                } else {
                    old(self).trail_lim@
                })
                &&& final(self).bcp_queue@ == old(self).bcp_queue@.push(literal)
            },
            final(self).clauses == old(self).clauses,
            final(self).formula == old(self).formula,
            final(self).vars == old(self).vars,
            final(self).watches == old(self).watches,
            final(self).restart == old(self).restart,
            final(self).conflicts == old(self).conflicts,
            final(self).learned_clauses == old(self).learned_clauses,
            final(self).model() == (if old(self).model().contains_key(literal.spec_var()) {
                old(self).model()
            } else {
                old(self).model().insert(literal.spec_var(), literal.spec_sign())
            }),
            !old(self).model().contains_key(literal.spec_var()) ==> usize_entries(final(self).reason) == (
            if clause.is_some() {
                usize_entries(old(self).reason).insert(literal.spec_var(), clause.unwrap())
            } else {
                usize_entries(old(self).reason)
            }),
            !old(self).model().contains_key(literal.spec_var()) ==> usize_entries(final(self).level)
                == usize_entries(old(self).level).insert(literal.spec_var(), final(self).trail_lim@.len() as usize),
            old(self).units_assigned() ==> final(self).units_assigned(),
    {
        let var = literal.var();
        if let Some(current) = bool_map_get(&self.assigns, var) {
            if current != literal.sign() {
                return Err(());
            } else {
                return Ok(());
            }
        }
        let ghost old_self = *self;
        let ghost t = self.trail@;
        let ghost n = self.trail@.len();
        // the length is a usize: the proof below needs that bound
        let _len = self.trail.len();
        proof {
            assert forall|i: int| 0 <= i < n implies (#[trigger] t[i]).spec_var() != var by {
                assert(lit_true(t[i], old_self.model()));
            }
        }
        match clause {
            Some(c) => {
                usize_map_insert(&mut self.reason, var, c);
            },
            None => {
                let tl = self.trail.len();
                self.trail_lim.push(tl);
            },
        }
        self.trail.push(literal);
        bool_map_insert(&mut self.assigns, var, literal.sign());
        usize_map_insert(&mut self.level, var, self.trail_lim.len());
        self.decision_provider.set(var);
        self.bcp_queue.push_back(literal);
        proof {
            assert(self.decision_provider@.dom() =~= old_self.decision_provider@.dom());
            self.lemma_store_inv(old_self, literal, clause);
            self.lemma_units_after_store(old_self, literal, clause);
        }
        Ok(())
    }

    proof fn lemma_units_after_store(&self, old_self: Solver, literal: Literal, clause: Option<usize>)
        requires
            old_self.inv(),
            self.trail@ == old_self.trail@.push(literal),
            self.trail_lim@ == (if clause.is_none() {
                old_self.trail_lim@.push(old_self.trail@.len() as usize)
            } else {
                old_self.trail_lim@
            }),
            old_self.trail@.len() <= usize::MAX,
            self.clauses == old_self.clauses,
        ensures
            old_self.units_assigned() ==> self.units_assigned(),
    {
        if old_self.units_assigned() {
            assert forall|k: int| #![trigger self.clauses@[k]]
                0 <= k < self.clauses@.len() && self.clauses@[k]@.len() == 1 implies exists|i: int|
                    0 <= i < self.trail@.len() && (self.trail_lim@.len() == 0 || i < self.trail_lim@[0])
                        && #[trigger] self.trail@[i].spec_var() == self.clauses@[k]@[0].spec_var() by {
                assert(old_self.clauses@[k] == self.clauses@[k]);
                let i = choose|i: int| 0 <= i < old_self.trail@.len() && (old_self.trail_lim@.len() == 0 || i < old_self.trail_lim@[0])
                    && #[trigger] old_self.trail@[i].spec_var() == old_self.clauses@[k]@[0].spec_var();
                assert(self.trail@[i] == old_self.trail@[i]);
                if old_self.trail_lim@.len() > 0 {
                    assert(self.trail_lim@[0] == old_self.trail_lim@[0]);
                } else if clause.is_none() {
                    assert(self.trail_lim@[0] == old_self.trail@.len());
                }
            }
        }
    }

    proof fn lemma_units_after_pop(&self, old_self: Solver, b: nat)
        requires
            old_self.inv(),
            b < old_self.trail_lim@.len(),
            self.trail@ == old_self.trail@.subrange(0, old_self.trail_lim@[b as int] as int),
            self.trail_lim@ == old_self.trail_lim@.subrange(0, b as int),
            self.clauses == old_self.clauses,
        ensures
            old_self.units_assigned() ==> self.units_assigned(),
    {
        if old_self.units_assigned() {
            assert forall|k: int| #![trigger self.clauses@[k]]
                0 <= k < self.clauses@.len() && self.clauses@[k]@.len() == 1 implies exists|i: int|
                    0 <= i < self.trail@.len() && (self.trail_lim@.len() == 0 || i < self.trail_lim@[0])
                        && #[trigger] self.trail@[i].spec_var() == self.clauses@[k]@[0].spec_var() by {
                assert(old_self.clauses@[k] == self.clauses@[k]);
                let i = choose|i: int| 0 <= i < old_self.trail@.len() && (old_self.trail_lim@.len() == 0 || i < old_self.trail_lim@[0])
                    && #[trigger] old_self.trail@[i].spec_var() == old_self.clauses@[k]@[0].spec_var();
                if b > 0 {
                    assert(old_self.trail_lim@[0] < old_self.trail_lim@[b as int]);
                    assert(self.trail_lim@[0] == old_self.trail_lim@[0]);
                }
                assert(i < old_self.trail_lim@[b as int]) by {
                    if b > 0 {
                        assert(old_self.trail_lim@[0] < old_self.trail_lim@[b as int]);
                    }
                }
                assert(self.trail@[i] == old_self.trail@[i]);
            }
        }
    }

    /// Assigns the literal as `store_assignment` does, keeping the
    /// watched-literal discipline.
    fn assign(&mut self, literal: Literal, clause: Option<usize>) -> (r: Result<(), ()>)
        requires
            old(self).inv(),
            literal.wf(),
            old(self).vars@.contains(literal.spec_var()),
            clause.is_some() ==> {
                let k = clause.unwrap() as int;
                &&& 0 <= k < old(self).clauses@.len()
                &&& old(self).clauses@[k]@.contains(literal)
                &&& forall|l: Literal| #[trigger]
                    old(self).clauses@[k]@.contains(l) && l != literal ==> lit_false(l, old(self).model())
            },
        ensures
            final(self).inv(),
            r.is_err() == lit_false(literal, old(self).model()),
            old(self).model().contains_key(literal.spec_var()) ==> *final(self) == *old(self),
            !old(self).model().contains_key(literal.spec_var()) ==> {
                &&& final(self).trail@ == old(self).trail@.push(literal)
                &&& final(self).trail_lim@ == (if clause.is_none() {
                    old(self).trail_lim@.push(old(self).trail@.len() as usize)
                } else {
                    old(self).trail_lim@
                })
                &&& final(self).bcp_queue@ == old(self).bcp_queue@.push(literal)
            },
            final(self).clauses == old(self).clauses,
            final(self).formula == old(self).formula,
            final(self).vars == old(self).vars,
            final(self).watches == old(self).watches,
            final(self).restart == old(self).restart,
            final(self).conflicts == old(self).conflicts,
            final(self).learned_clauses == old(self).learned_clauses,
            final(self).model() == (if old(self).model().contains_key(literal.spec_var()) {
                old(self).model()
            } else {
                old(self).model().insert(literal.spec_var(), literal.spec_sign())
            }),
            old(self).watches_hold() ==> final(self).watches_hold(),
            old(self).watch_listed() ==> final(self).watch_listed(),
            old(self).queue_current() && (clause.is_some() || old(self).bcp_queue@.len() == 0)
                ==> final(self).queue_current(),
            !old(self).model().contains_key(literal.spec_var()) ==> usize_entries(final(self).reason) == (
            if clause.is_some() {
                usize_entries(old(self).reason).insert(literal.spec_var(), clause.unwrap())
            } else {
                usize_entries(old(self).reason)
            }),
            old(self).units_assigned() ==> final(self).units_assigned(),
    {
        let ghost old_self = *self;
        // the length is a usize: the proof below needs that bound
        let _len = self.trail.len();
        let r = self.store_assignment(literal, clause);
        proof {
            if !old_self.model().contains_key(literal.spec_var()) {
                self.lemma_store_watch(old_self, literal, clause);
            }
        }
        r
    }

    proof fn lemma_store_watch(&self, old_self: Solver, literal: Literal, clause: Option<usize>)
        requires
            old_self.inv(),
            self.inv(),
            literal.wf(),
            !old_self.model().contains_key(literal.spec_var()),
            self.trail@ == old_self.trail@.push(literal),
            self.trail_lim@ == (if clause.is_none() {
                old_self.trail_lim@.push(old_self.trail@.len() as usize)
            } else {
                old_self.trail_lim@
            }),
            old_self.trail@.len() <= usize::MAX,
            self.bcp_queue@ == old_self.bcp_queue@.push(literal),
            self.model() == old_self.model().insert(literal.spec_var(), literal.spec_sign()),
            self.clauses == old_self.clauses,
            self.watches == old_self.watches,
        ensures
            old_self.watches_hold() ==> self.watches_hold(),
            old_self.watch_listed() ==> self.watch_listed(),
            old_self.queue_current() && (clause.is_some() || old_self.bcp_queue@.len() == 0)
                ==> self.queue_current(),
    {
        let n = old_self.trail@.len() as int;
        let lim = self.trail_lim@;
        let olim = old_self.trail_lim@;
        assert forall|i: int| 0 <= i < n implies #[trigger] self.trail@[i] == old_self.trail@[i] by {}
        assert forall|i: int| 0 <= i < n implies #[trigger] level_at(lim, i) == level_at(olim, i) by {
            if clause.is_none() {
                assert(lim.drop_last() =~= olim);
                assert(lim.last() == n as usize);
                assert(level_at(lim, i) == level_at(lim.drop_last(), i) + if lim.last() <= i { 1nat } else { 0nat });
            }
        }
        if old_self.watches_hold() {
            assert forall|k: int| #![trigger self.clauses@[k]] 0 <= k < self.clauses@.len() implies {
                &&& self.watch_pair_ok(first_watch(self.clauses@[k]@), second_watch(self.clauses@[k]@))
                &&& self.watch_pair_ok(second_watch(self.clauses@[k]@), first_watch(self.clauses@[k]@))
            } by {
                let c = self.clauses@[k]@;
                assert(old_self.clauses@[k] == self.clauses@[k]);
                assert(old_self.clause_ok(c));
                assert(c.len() >= 1);
                let a = first_watch(c);
                let b = second_watch(c);
                assert(a.wf() && b.wf());
                self.lemma_pair_after_store(old_self, literal, a, b);
                self.lemma_pair_after_store(old_self, literal, b, a);
            }
        }
        if old_self.queue_current() && (clause.is_some() || old_self.bcp_queue@.len() == 0) {
            assert forall|k: int| 0 <= k < self.bcp_queue@.len() implies self.on_trail_between(
                #[trigger] self.bcp_queue@[k],
                self.segment_start(),
                self.trail@.len() as int,
            ) by {
                let q = self.bcp_queue@[k];
                if k < old_self.bcp_queue@.len() {
                    assert(q == old_self.bcp_queue@[k]);
                    assert(old_self.on_trail_between(q, old_self.segment_start(), n));
                    let p = choose|p: int| old_self.segment_start() <= p < n && #[trigger] old_self.trail@[p].spec_var() == q.spec_var();
                    assert(self.trail@[p] == old_self.trail@[p]);
                    assert(self.segment_start() == old_self.segment_start());
                } else {
                    assert(q == literal);
                    assert(self.trail@[n].spec_var() == q.spec_var());
                    if clause.is_none() {
                        assert(self.segment_start() == n);
                    } else if olim.len() > 0 {
                        assert(olim[olim.len() - 1] < n);
                    }
                }
            }
        }
    }

    /// A watched pair that kept the discipline keeps it after one more
    /// literal is assigned and queued.
    proof fn lemma_pair_after_store(&self, old_self: Solver, literal: Literal, w: Literal, o: Literal)
        requires
            old_self.inv(),
            self.inv(),
            literal.wf(),
            w.wf(),
            o.wf(),
            old_self.watch_pair_ok(w, o),
            !old_self.model().contains_key(literal.spec_var()),
            old_self.trail@.len() <= self.trail@.len(),
            forall|i: int| 0 <= i < old_self.trail@.len() ==> #[trigger] self.trail@[i] == old_self.trail@[i],
            forall|i: int| 0 <= i < old_self.trail@.len() ==> #[trigger] level_at(self.trail_lim@, i) == level_at(old_self.trail_lim@, i),
            self.bcp_queue@ == old_self.bcp_queue@.push(literal),
            self.model() == old_self.model().insert(literal.spec_var(), literal.spec_sign()),
        ensures
            self.watch_pair_ok(w, o),
    {
        let m = self.model();
        let om = old_self.model();
        if lit_false(w, m) && !self.bcp_queue@.contains(w.spec_neg()) {
            if w.spec_var() == literal.spec_var() {
                assert(w.spec_neg() == literal);
                assert(self.bcp_queue@[self.bcp_queue@.len() - 1] == literal);
                assert(false);
            }
            assert(lit_false(w, om));
            assert(!old_self.bcp_queue@.contains(w.spec_neg())) by {
                if old_self.bcp_queue@.contains(w.spec_neg()) {
                    let z = choose|z: int| 0 <= z < old_self.bcp_queue@.len() && old_self.bcp_queue@[z] == w.spec_neg();
                    assert(self.bcp_queue@[z] == w.spec_neg());
                }
            }
            assert(lit_true(o, om));
            self.lemma_assigned_stable(old_self, w);
            self.lemma_assigned_stable(old_self, o);
        }
    }

    proof fn lemma_store_inv(&self, old_self: Solver, literal: Literal, clause: Option<usize>)
        requires
            old_self.inv(),
            literal.wf(),
            old_self.vars@.contains(literal.spec_var()),
            !old_self.model().contains_key(literal.spec_var()),
            clause.is_some() ==> {
                let k = clause.unwrap() as int;
                &&& 0 <= k < old_self.clauses@.len()
                &&& old_self.clauses@[k]@.contains(literal)
                &&& forall|l: Literal| #[trigger]
                    old_self.clauses@[k]@.contains(l) && l != literal ==> lit_false(l, old_self.model())
            },
            forall|i: int| 0 <= i < old_self.trail@.len() ==> (#[trigger] old_self.trail@[i]).spec_var() != literal.spec_var(),
            old_self.trail@.len() <= usize::MAX,
            self.trail_lim@.len() <= usize::MAX,
            self.trail@ == old_self.trail@.push(literal),
            self.trail_lim@ == (if clause.is_none() {
                old_self.trail_lim@.push(old_self.trail@.len() as usize)
            } else {
                old_self.trail_lim@
            }),
            self.bcp_queue@ == old_self.bcp_queue@.push(literal),
            self.model() == old_self.model().insert(literal.spec_var(), literal.spec_sign()),
            usize_entries(self.level) == usize_entries(old_self.level).insert(literal.spec_var(), self.trail_lim@.len() as usize),
            usize_entries(self.reason) == (if clause.is_some() {
                usize_entries(old_self.reason).insert(literal.spec_var(), clause.unwrap())
            } else {
                usize_entries(old_self.reason)
            }),
            self.decision_provider@.dom() == old_self.decision_provider@.dom(),
            self.decision_provider.wf(),
            self.trivially_unsat == old_self.trivially_unsat,
            self.clauses == old_self.clauses,
            self.formula == old_self.formula,
            self.vars == old_self.vars,
            self.watches == old_self.watches,
        ensures
            self.inv(),
    {
        let t = self.trail@;
        let ot = old_self.trail@;
        let n = ot.len() as int;
        let lim = self.trail_lim@;
        let olim = old_self.trail_lim@;
        let m = self.model();
        let om = old_self.model();
        assert(t[n] == literal);
        assert forall|i: int| 0 <= i < n implies t[i] == ot[i] by {}
        // trail
        assert(limits_increasing(lim)) by {
            if clause.is_none() {
                assert forall|a: int, b: int| 0 <= a < b < lim.len() implies lim[a] < lim[b] by {
                    if b == lim.len() - 1 {
                        assert(olim[a] < n);
                        assert(lim[a] == olim[a]);
                        assert(lim[b] == n);
                    } else {
                        assert(lim[a] == olim[a]);
                        assert(lim[b] == olim[b]);
                    }
                }
            }
        }
        assert(self.trail_ok());
        // assignment
        assert forall|v: nat| #[trigger] m.contains_key(v) implies exists|i: int|
            0 <= i < t.len() && (#[trigger] t[i]).spec_var() == v by {
            if v == literal.spec_var() {
                assert(t[n].spec_var() == v);
            } else {
                assert(om.contains_key(v));
                let i = choose|i: int| 0 <= i < ot.len() && (#[trigger] ot[i]).spec_var() == v;
                assert(t[i] == ot[i]);
            }
        }
        assert forall|i: int| 0 <= i < t.len() implies lit_true(#[trigger] t[i], m) by {
            if i < n {
                assert(lit_true(ot[i], om));
            }
        }
        assert(self.assigns_ok());
        // levels
        assert forall|i: int| 0 <= i < n implies level_at(lim, i) == level_at(olim, i) by {
            if clause.is_none() {
                assert(lim.drop_last() =~= olim);
                assert(lim.last() == n as usize);
                assert(level_at(lim, i) == level_at(lim.drop_last(), i) + if lim.last() <= i { 1nat } else { 0nat });
            }
        }
        assert(level_at(lim, n) == lim.len()) by {
            if lim.len() > 0 {
                assert(lim[lim.len() - 1] <= n) by {
                    if clause.is_some() {
                        assert(olim[olim.len() - 1] < n);
                    }
                }
            }
            lemma_level_at(lim, n, lim.len());
        }
        assert(self.levels_ok()) by {
            assert forall|i: int| 0 <= i < t.len() implies usize_entries(self.level).contains_key(
                (#[trigger] t[i]).spec_var(),
            ) && usize_entries(self.level)[t[i].spec_var()] == level_at(lim, i) by {
                if i < n {
                    assert(ot[i] == t[i]);
                    assert(ot[i].spec_var() != literal.spec_var());
                } else {
                    assert(t[i] == literal);
                }
            }
        }
        // reasons
        let r = usize_entries(self.reason);
        let or = usize_entries(old_self.reason);
        assert forall|i: int| 0 <= i < n implies (#[trigger] lim.contains(i as usize) <==> olim.contains(i as usize)) by {
            if clause.is_none() {
                if lim.contains(i as usize) && !olim.contains(i as usize) {
                    let k = choose|k: int| 0 <= k < lim.len() && lim[k] == i as usize;
                    assert(k < olim.len());
                    assert(olim[k] == i as usize);
                }
                if olim.contains(i as usize) {
                    let k = choose|k: int| 0 <= k < olim.len() && olim[k] == i as usize;
                    assert(lim[k] == i as usize);
                }
            }
        }
        assert(!or.contains_key(literal.spec_var())) by {
            if or.contains_key(literal.spec_var()) {
                let i = choose|i: int| 0 <= i < ot.len() && (#[trigger] ot[i]).spec_var() == literal.spec_var();
            }
        }
        assert(r.contains_key(literal.spec_var()) <==> !lim.contains(n as usize)) by {
            if clause.is_none() {
                assert(lim[lim.len() - 1] == n as usize);
            } else {
                if lim.contains(n as usize) {
                    let k = choose|k: int| 0 <= k < lim.len() && lim[k] == n as usize;
                }
            }
        }
        assert forall|v: nat| #[trigger] r.contains_key(v) implies exists|i: int|
            0 <= i < t.len() && (#[trigger] t[i]).spec_var() == v by {
            if v == literal.spec_var() {
                assert(t[n].spec_var() == v);
            } else {
                assert(or.contains_key(v));
                let i = choose|i: int| 0 <= i < ot.len() && (#[trigger] ot[i]).spec_var() == v;
                assert(t[i] == ot[i]);
            }
        }
        assert forall|i: int| 0 <= i < t.len() && r.contains_key((#[trigger] t[i]).spec_var()) implies self.reason_ok_at(i) by {
            if i < n {
                assert(ot[i] == t[i]);
                assert(old_self.reason_ok_at(i));
                let k = or[ot[i].spec_var()] as int;
                assert forall|l: Literal| #[trigger]
                    self.clauses@[k]@.contains(l) && l != t[i] implies exists|j: int|
                        0 <= j < i && #[trigger] t[j] == l.spec_neg() by {
                    let j = choose|j: int| 0 <= j < i && #[trigger] ot[j] == l.spec_neg();
                    assert(t[j] == ot[j]);
                }
            } else {
                let k = clause.unwrap() as int;
                assert forall|l: Literal| #[trigger]
                    self.clauses@[k]@.contains(l) && l != t[i] implies exists|j: int|
                        0 <= j < i && #[trigger] t[j] == l.spec_neg() by {
                    assert(lit_false(l, om));
                    let j = choose|j: int| 0 <= j < ot.len() && (#[trigger] ot[j]).spec_var() == l.spec_var();
                    assert(lit_true(ot[j], om));
                    let ci = choose|ci: int| 0 <= ci < self.clauses@[k]@.len() && self.clauses@[k]@[ci] == l;
                    assert(old_self.clause_ok(old_self.clauses@[k]@));
                    assert(l.wf());
                    assert(ot[j].wf());
                    assert(t[j] == ot[j]);
                }
            }
        }
        assert(self.reasons_ok());
        assert(self.clauses_ok());
        // roots
        assert forall|i: int|
            0 <= i < t.len() && (lim.len() == 0 || i < lim[0]) implies entails_lit(self.formula@, #[trigger] t[i]) by {
            if i < n {
                assert(ot[i] == t[i]);
                if clause.is_none() && olim.len() == 0 {
                    assert(lim[0] == n);
                }
            } else {
                if lim.len() == 0 {
                    let k = clause.unwrap() as int;
                    let c = self.clauses@[k]@;
                    assert(old_self.clause_ok(c));
                    assert forall|l: Literal| c.contains(l) && l != literal implies entails_lit(
                        self.formula@,
                        #[trigger] l.spec_neg(),
                    ) by {
                        assert(lit_false(l, om));
                        let j = choose|j: int| 0 <= j < ot.len() && (#[trigger] ot[j]).spec_var() == l.spec_var();
                        assert(lit_true(ot[j], om));
                        let ci = choose|ci: int| 0 <= ci < c.len() && c[ci] == l;
                        assert(l.wf());
                        assert(ot[j].wf());
                        assert(ot[j] == l.spec_neg());
                    }
                    assert forall|l: Literal| c.contains(l) implies #[trigger] l.wf() by {
                        let ci = choose|ci: int| 0 <= ci < c.len() && c[ci] == l;
                    }
                    lemma_unit_entailed(self.formula@, c, literal);
                }
            }
        }
        assert(self.roots_ok());
        // queue
        assert forall|k: int| 0 <= k < self.bcp_queue@.len() implies t.contains(#[trigger] self.bcp_queue@[k]) by {
            if k < old_self.bcp_queue@.len() {
                assert(ot.contains(old_self.bcp_queue@[k]));
                let j = choose|j: int| 0 <= j < ot.len() && ot[j] == old_self.bcp_queue@[k];
                assert(t[j] == ot[j]);
            } else {
                assert(t[n] == literal);
            }
        }
        assert(self.queue_ok());
        assert(self.heuristic_ok());
    }
}

impl Solver {
    /// The variable of trail position `j` for some `j` in `lo..hi`.
    spec fn popped(t: Seq<Literal>, lo: int, hi: int, v: nat) -> bool {
        exists|j: int| lo <= j < hi && (#[trigger] t[j]).spec_var() == v
    }

    /// Undoes every assignment above decision level `to_level`, and drops
    /// the literals waiting for propagation.
    pub fn backtrack(&mut self, to_level: usize)
        requires
            old(self).wf(),
            to_level < old(self).current_level(),
        ensures
            final(self).wf(),
            final(self).formula() == old(self).formula(),
            old(self).is_trivially_unsat() ==> *final(self) == *old(self),
            !old(self).is_trivially_unsat() ==> final(self).trail_seq() == old(self).trail_seq().subrange(0, old(self).limits()[to_level as int] as int),
            !old(self).is_trivially_unsat() ==> final(self).limits() == old(self).limits().subrange(0, to_level as int),
            !old(self).is_trivially_unsat() ==> final(self).model_of_trail(),
            !old(self).is_trivially_unsat() ==> forall|i: int|
                old(self).limits()[to_level as int] <= i < old(self).trail_seq().len()
                    ==> !final(self).model().contains_key(#[trigger] old(self).trail_seq()[i].spec_var()),
            !old(self).is_trivially_unsat() ==> forall|v: nat| #[trigger] final(self).model().contains_key(v)
                ==> old(self).model().contains_key(v) && final(self).model()[v] == old(self).model()[v],
    {
        if self.trivially_unsat {
            return;
        }
        self.bcp_queue.clear();
        proof {
            assert(self.model() == old(self).model());
            assert(self.inv()) by {
                assert(self.trail_ok());
                assert(self.assigns_ok());
                assert(self.levels_ok());
                assert(self.reasons_ok());
                assert(self.clauses_ok());
                assert(self.roots_ok());
                assert(self.queue_ok());
                assert(self.heuristic_ok());
            }
        }
        self.pop_levels(to_level);
        proof {
            self.lemma_model_of_trail();
        }
    }

    /// Undoes every assignment above decision level `to_level`.
    fn pop_levels(&mut self, to_level: usize)
        requires
            old(self).inv(),
            to_level < old(self).trail_lim@.len(),
            old(self).bcp_queue@.len() == 0,
        ensures
            final(self).inv(),
            old(self).watches_hold_below(old(self).trail_lim@.len()) ==> final(self).watches_hold(),
            old(self).watch_listed() ==> final(self).watch_listed(),
            old(self).units_assigned() ==> final(self).units_assigned(),
            final(self).queue_current(),
            final(self).trail@ == old(self).trail@.subrange(0, old(self).trail_lim@[to_level as int] as int),
            final(self).trail_lim@ == old(self).trail_lim@.subrange(0, to_level as int),
            final(self).bcp_queue@.len() == 0,
            final(self).clauses == old(self).clauses,
            final(self).formula == old(self).formula,
            final(self).vars == old(self).vars,
            final(self).watches == old(self).watches,
            final(self).restart == old(self).restart,
            final(self).conflicts == old(self).conflicts,
            final(self).learned_clauses == old(self).learned_clauses,
            forall|i: int| old(self).trail_lim@[to_level as int] <= i < old(self).trail@.len()
                ==> !final(self).model().contains_key(#[trigger] old(self).trail@[i].spec_var()),
            forall|v: nat| #[trigger] final(self).model().contains_key(v) ==> old(self).model().contains_key(v)
                && final(self).model()[v] == old(self).model()[v],
    {
        let ghost old_self = *self;
        let ghost t = self.trail@;
        let target = self.trail_lim[to_level];
        let n = self.trail.len();
        let mut i = target;
        while i < n
            invariant
                target <= i <= n,
                n == t.len(),
                self.trail@ == t,
                self.trail_lim == old_self.trail_lim,
                self.bcp_queue == old_self.bcp_queue,
                self.clauses == old_self.clauses,
                self.formula == old_self.formula,
                self.vars == old_self.vars,
                self.watches == old_self.watches,
                self.restart == old_self.restart,
                self.conflicts == old_self.conflicts,
                self.learned_clauses == old_self.learned_clauses,
                self.trivially_unsat == old_self.trivially_unsat,
                lits_wf(t),
                self.decision_provider.wf(),
                self.decision_provider@.dom() == old_self.decision_provider@.dom(),
                forall|v: nat| #[trigger] self.model().contains_key(v) <==> (old_self.model().contains_key(v)
                    && !Self::popped(t, target as int, i as int, v)),
                forall|v: nat| #[trigger] self.model().contains_key(v) ==> self.model()[v] == old_self.model()[v],
                forall|v: nat| #[trigger] usize_entries(self.level).contains_key(v) <==> (usize_entries(old_self.level).contains_key(v)
                    && !Self::popped(t, target as int, i as int, v)),
                forall|v: nat| #[trigger] usize_entries(self.level).contains_key(v) ==> usize_entries(self.level)[v] == usize_entries(old_self.level)[v],
                forall|v: nat| #[trigger] usize_entries(self.reason).contains_key(v) <==> (usize_entries(old_self.reason).contains_key(v)
                    && !Self::popped(t, target as int, i as int, v)),
                forall|v: nat| #[trigger] usize_entries(self.reason).contains_key(v) ==> usize_entries(self.reason)[v] == usize_entries(old_self.reason)[v],
            decreases n - i,
        {
            let var = self.trail[i].var();
            let ghost pre_m = self.model();
            let ghost pre_l = usize_entries(self.level);
            let ghost pre_r = usize_entries(self.reason);
            bool_map_remove(&mut self.assigns, var);
            usize_map_remove(&mut self.level, var);
            usize_map_remove(&mut self.reason, var);
            self.decision_provider.unset(var);
            proof {
                assert(self.model() == pre_m.remove(var as nat));
                assert(usize_entries(self.level) == pre_l.remove(var as nat));
                assert(usize_entries(self.reason) == pre_r.remove(var as nat));
                assert(self.decision_provider@.dom() =~= old_self.decision_provider@.dom());
                assert forall|v: nat| Self::popped(t, target as int, i + 1, v) <==> (Self::popped(t, target as int, i as int, v) || v == var) by {
                    if v == var {
                        assert(t[i as int].spec_var() == v);
                    }
                    if Self::popped(t, target as int, i + 1, v) && v != var {
                        let j = choose|j: int| target <= j < i + 1 && (#[trigger] t[j]).spec_var() == v;
                        assert(j < i);
                    }
                }
            }
            i = i + 1;
        }
        proof {
            assert(i == n);
            assert(forall|v: nat| #[trigger] self.model().contains_key(v) <==> (old_self.model().contains_key(v)
                    && !Self::popped(t, target as int, i as int, v)));
        }
        let ghost before_truncate = self.model();
        self.trail.truncate(target);
        self.trail_lim.truncate(to_level);
        proof {
            assert(before_truncate == self.model());
            assert(target as int == old_self.trail_lim@[to_level as int] as int);
            assert(forall|v: nat| #[trigger] self.model().contains_key(v) <==> (old_self.model().contains_key(v)
                    && !Self::popped(t, target as int, t.len() as int, v)));
            self.lemma_backtrack_inv(old_self, to_level as nat);
            self.lemma_units_after_pop(old_self, to_level as nat);
            if old_self.watches_hold_below(old_self.trail_lim@.len()) {
                self.lemma_watches_after_pop(old_self, to_level as nat);
            }
            assert(old_self.watch_listed() ==> self.watch_listed());
        }
    }

    proof fn lemma_backtrack_inv(&self, old_self: Solver, b: nat)
        requires
            old_self.inv(),
            b < old_self.trail_lim@.len(),
            old_self.bcp_queue@.len() == 0,
            self.trail@ == old_self.trail@.subrange(0, old_self.trail_lim@[b as int] as int),
            self.trail_lim@ == old_self.trail_lim@.subrange(0, b as int),
            self.bcp_queue == old_self.bcp_queue,
            self.clauses == old_self.clauses,
            self.formula == old_self.formula,
            self.vars == old_self.vars,
            self.watches == old_self.watches,
            self.trivially_unsat == old_self.trivially_unsat,
            self.decision_provider.wf(),
            self.decision_provider@.dom() == old_self.decision_provider@.dom(),
            ({
                let t = old_self.trail@;
                let target = old_self.trail_lim@[b as int] as int;
                &&& forall|v: nat| #[trigger] self.model().contains_key(v) <==> (old_self.model().contains_key(v)
                    && !Self::popped(t, target, t.len() as int, v))
                &&& forall|v: nat| #[trigger] self.model().contains_key(v) ==> self.model()[v] == old_self.model()[v]
                &&& forall|v: nat| #[trigger] usize_entries(self.level).contains_key(v) <==> (usize_entries(old_self.level).contains_key(v)
                    && !Self::popped(t, target, t.len() as int, v))
                &&& forall|v: nat| #[trigger] usize_entries(self.level).contains_key(v) ==> usize_entries(self.level)[v] == usize_entries(old_self.level)[v]
                &&& forall|v: nat| #[trigger] usize_entries(self.reason).contains_key(v) <==> (usize_entries(old_self.reason).contains_key(v)
                    && !Self::popped(t, target, t.len() as int, v))
                &&& forall|v: nat| #[trigger] usize_entries(self.reason).contains_key(v) ==> usize_entries(self.reason)[v] == usize_entries(old_self.reason)[v]
            }),
        ensures
            self.inv(),
    {
        let ot = old_self.trail@;
        let t = self.trail@;
        let olim = old_self.trail_lim@;
        let lim = self.trail_lim@;
        let target = olim[b as int] as int;
        let n = ot.len() as int;
        assert forall|i: int| 0 <= i < target implies #[trigger] t[i] == ot[i] by {}
        assert forall|i: int| 0 <= i < target implies !Self::popped(ot, target, n, (#[trigger] ot[i]).spec_var()) by {
            if Self::popped(ot, target, n, ot[i].spec_var()) {
                let j = choose|j: int| target <= j < n && (#[trigger] ot[j]).spec_var() == ot[i].spec_var();
            }
        }
        // trail
        assert forall|k: int| 0 <= k < lim.len() implies #[trigger] lim[k] < t.len() by {
            assert(olim[k] < olim[b as int]);
        }
        assert(self.trail_ok());
        // assignment
        let m = self.model();
        let om = old_self.model();
        assert forall|v: nat| #[trigger] m.contains_key(v) implies exists|i: int|
            0 <= i < t.len() && (#[trigger] t[i]).spec_var() == v by {
            let i = choose|i: int| 0 <= i < ot.len() && (#[trigger] ot[i]).spec_var() == v;
            if i >= target {
                assert(Self::popped(ot, target, n, v));
            }
            assert(t[i] == ot[i]);
        }
        assert forall|i: int| 0 <= i < t.len() implies lit_true(#[trigger] t[i], m) by {
            assert(t[i] == ot[i]);
            assert(lit_true(ot[i], om));
            assert(!Self::popped(ot, target, n, ot[i].spec_var()));
        }
        assert(self.assigns_ok());
        // levels
        assert forall|i: int| 0 <= i < t.len() implies usize_entries(self.level).contains_key(
            (#[trigger] t[i]).spec_var(),
        ) && usize_entries(self.level)[t[i].spec_var()] == level_at(lim, i) by {
            assert(t[i] == ot[i]);
            assert(!Self::popped(ot, target, n, ot[i].spec_var()));
            assert(usize_entries(old_self.level).contains_key(ot[i].spec_var()));
            assert(usize_entries(self.level).contains_key(ot[i].spec_var()));
            crate::measure::lemma_level_prefix(olim, b, i);
        }
        assert(self.levels_ok());
        // reasons
        let r = usize_entries(self.reason);
        let or = usize_entries(old_self.reason);
        assert forall|i: int| 0 <= i < t.len() implies (r.contains_key((#[trigger] t[i]).spec_var())
            <==> !lim.contains(i as usize)) by {
            assert(t[i] == ot[i]);
            assert(!Self::popped(ot, target, n, ot[i].spec_var()));
            if lim.contains(i as usize) {
                let k = choose|k: int| 0 <= k < lim.len() && lim[k] == i as usize;
                assert(olim[k] == i as usize);
            }
            if olim.contains(i as usize) {
                let k = choose|k: int| 0 <= k < olim.len() && olim[k] == i as usize;
                if k >= b {
                    if k > b {
                        assert(olim[b as int] < olim[k]);
                    }
                }
                assert(lim[k] == i as usize);
            }
        }
        assert forall|v: nat| #[trigger] r.contains_key(v) implies exists|i: int|
            0 <= i < t.len() && (#[trigger] t[i]).spec_var() == v by {
            let i = choose|i: int| 0 <= i < ot.len() && (#[trigger] ot[i]).spec_var() == v;
            if i >= target {
                assert(Self::popped(ot, target, n, v));
            }
            assert(t[i] == ot[i]);
        }
        assert forall|i: int| 0 <= i < t.len() && r.contains_key((#[trigger] t[i]).spec_var()) implies self.reason_ok_at(i) by {
            assert(t[i] == ot[i]);
            assert(old_self.reason_ok_at(i));
            let k = or[ot[i].spec_var()] as int;
            assert forall|l: Literal| #[trigger]
                self.clauses@[k]@.contains(l) && l != t[i] implies exists|j: int|
                    0 <= j < i && #[trigger] t[j] == l.spec_neg() by {
                let j = choose|j: int| 0 <= j < i && #[trigger] ot[j] == l.spec_neg();
                assert(t[j] == ot[j]);
            }
        }
        assert(self.reasons_ok());
        assert(self.clauses_ok());
        assert forall|i: int|
            0 <= i < t.len() && (lim.len() == 0 || i < lim[0]) implies entails_lit(self.formula@, #[trigger] t[i]) by {
            assert(t[i] == ot[i]);
            if b > 0 {
                assert(lim[0] == olim[0]);
            }
        }
        assert(self.roots_ok());
        assert(self.heuristic_ok());
    }
}

impl Solver {
    /// The trail holds no more literals than there are variables.
    proof fn lemma_trail_len(&self)
        requires
            self.trail_ok(),
            self.vars@.finite(),
        ensures
            self.trail@.len() <= self.vars@.len(),
    {
        let t = self.trail@;
        let vs = t.map_values(|l: Literal| l.spec_var());
        assert(vs.no_duplicates()) by {
            assert forall|i: int, j: int| 0 <= i < vs.len() && 0 <= j < vs.len() && i != j implies vs[i] != vs[j] by {
                if i < j {
                    assert(t[i].spec_var() != t[j].spec_var());
                } else {
                    assert(t[j].spec_var() != t[i].spec_var());
                }
            }
        }
        vs.unique_seq_to_set();
        assert(vs.to_set().subset_of(self.vars@)) by {
            assert forall|v: nat| vs.to_set().contains(v) implies self.vars@.contains(v) by {
                assert(vs.contains(v));
                let i = choose|i: int| 0 <= i < vs.len() && vs[i] == v;
                assert(self.vars@.contains(t[i].spec_var()));
            }
        }
        vstd::set_lib::lemma_len_subset(vs.to_set(), self.vars@);
    }

    /// Clauses that hold the same literals are satisfied by the same models.
    proof fn lemma_same_lits_sat(a: Seq<Literal>, b: Seq<Literal>, m: Model)
        requires
            same_lits(a, b),
        ensures
            clause_sat(a, m) == clause_sat(b, m),
    {
        if clause_sat(a, m) {
            let i = choose|i: int| 0 <= i < a.len() && #[trigger] lit_true(a[i], m);
            assert(a.contains(a[i]));
            let j = choose|j: int| 0 <= j < b.len() && b[j] == a[i];
            assert(lit_true(b[j], m));
        }
        if clause_sat(b, m) {
            let i = choose|i: int| 0 <= i < b.len() && #[trigger] lit_true(b[i], m);
            assert(b.contains(b[i]));
            let j = choose|j: int| 0 <= j < a.len() && a[j] == b[i];
            assert(lit_true(a[j], m));
        }
    }

    /// Replacing a clause of the arena by one with the same literals keeps
    /// the invariant.
    proof fn lemma_clause_replaced(&self, old_self: Solver, ci: int)
        requires
            old_self.inv(),
            0 <= ci < old_self.clauses@.len(),
            self.clauses@.len() == old_self.clauses@.len(),
            forall|k: int| 0 <= k < self.clauses@.len() && k != ci ==> #[trigger] self.clauses@[k] == old_self.clauses@[k],
            same_lits(self.clauses@[ci]@, old_self.clauses@[ci]@),
            self.clauses@[ci]@.len() == old_self.clauses@[ci]@.len(),
            lits_distinct(self.clauses@[ci]@),
            self.trivially_unsat == old_self.trivially_unsat,
            self.trail == old_self.trail,
            self.trail_lim == old_self.trail_lim,
            self.assigns == old_self.assigns,
            self.level == old_self.level,
            self.reason == old_self.reason,
            self.bcp_queue == old_self.bcp_queue,
            self.decision_provider == old_self.decision_provider,
            self.formula == old_self.formula,
            self.vars == old_self.vars,
            self.watches == old_self.watches,
        ensures
            self.inv(),
    {
        let c = self.clauses@[ci]@;
        let oc = old_self.clauses@[ci]@;
        assert(old_self.clause_ok(oc));
        assert(self.clause_ok(c)) by {
            assert forall|i: int| 0 <= i < c.len() implies (#[trigger] c[i]).wf() && self.vars@.contains(c[i].spec_var()) by {
                assert(c.contains(c[i]));
                let j = choose|j: int| 0 <= j < oc.len() && oc[j] == c[i];
            }
            assert forall|m: Model| #[trigger] formula_sat(self.formula@, m) implies clause_sat(c, m) by {
                Self::lemma_same_lits_sat(c, oc, m);
            }
        }
        assert forall|k: int| 0 <= k < self.clauses@.len() implies self.clause_ok((#[trigger] self.clauses@[k])@) by {
            if k != ci {
                assert(old_self.clause_ok(old_self.clauses@[k]@));
            }
        }
        assert forall|j: int| 0 <= j < self.formula@.len() implies same_lits((#[trigger] self.clauses@[j])@, self.formula@[j]) by {
            assert(same_lits(old_self.clauses@[j]@, old_self.formula@[j]));
        }
        assert(self.clauses_ok());
        let t = self.trail@;
        let r = usize_entries(self.reason);
        assert forall|i: int| 0 <= i < t.len() && r.contains_key((#[trigger] t[i]).spec_var()) implies self.reason_ok_at(i) by {
            assert(old_self.reason_ok_at(i));
            let k = r[t[i].spec_var()] as int;
            if k == ci {
                assert(oc.contains(t[i]));
                assert forall|l: Literal| #[trigger]
                    self.clauses@[k]@.contains(l) && l != t[i] implies exists|j: int|
                        0 <= j < i && #[trigger] t[j] == l.spec_neg() by {
                    assert(oc.contains(l));
                }
            } else {
                assert(self.clauses@[k] == old_self.clauses@[k]);
            }
        }
        assert(self.reasons_ok());
        assert(self.trail_ok());
        assert(self.model() == old_self.model());
        assert(self.assigns_ok());
        assert(self.levels_ok());
        assert(self.roots_ok());
        assert(self.queue_ok());
        assert(self.heuristic_ok());
    }

    /// Adds clause `ci` to the watch list of the literal index `key`.
    fn add_watch(&mut self, key: usize, ci: usize)
        requires
            key < usize::MAX,
            ci < old(self).clauses@.len(),
            forall|k: nat, i: int|
                list_entries(old(self).watches).contains_key(k) && 0 <= i < list_entries(old(self).watches)[k].len()
                    ==> #[trigger] list_entries(old(self).watches)[k][i] < old(self).clauses@.len(),
        ensures
            forall|k: nat, i: int|
                list_entries(final(self).watches).contains_key(k) && 0 <= i < list_entries(final(self).watches)[k].len()
                    ==> #[trigger] list_entries(final(self).watches)[k][i] < final(self).clauses@.len(),
            final(self).watches_only_changed(old(self)),
            list_entries(final(self).watches).contains_key(key as nat),
            list_entries(final(self).watches)[key as nat].contains(ci),
            forall|x: nat| x != key ==> (#[trigger] list_entries(final(self).watches).contains_key(x)
                <==> list_entries(old(self).watches).contains_key(x)),
            forall|x: nat| x != key && list_entries(old(self).watches).contains_key(x)
                ==> #[trigger] list_entries(final(self).watches)[x] == list_entries(old(self).watches)[x],
            list_entries(final(self).watches)[key as nat] == (if list_entries(old(self).watches).contains_key(key as nat) {
                list_entries(old(self).watches)[key as nat]
            } else {
                Seq::empty()
            }).push(ci),
            forall|x: nat, k: usize| list_entries(old(self).watches).contains_key(x)
                && #[trigger] list_entries(old(self).watches)[x].contains(k) ==> list_entries(final(self).watches).contains_key(x)
                && list_entries(final(self).watches)[x].contains(k),
    {
        let mut list = match list_map_remove(&mut self.watches, key) {
            Some(l) => l,
            None => Vec::new(),
        };
        let ghost before_push = list@;
        list.push(ci);
        list_map_insert(&mut self.watches, key, list);
        proof {
            assert(list@[list@.len() - 1] == ci);
            assert forall|x: nat, k: usize| list_entries(old(self).watches).contains_key(x)
                && #[trigger] list_entries(old(self).watches)[x].contains(k) implies list_entries(self.watches).contains_key(x)
                && list_entries(self.watches)[x].contains(k) by {
                if x == key as nat {
                    let z = choose|z: int| 0 <= z < before_push.len() && before_push[z] == k;
                    assert(list@[z] == k);
                }
            }
            let w = list_entries(self.watches);
            assert forall|k: nat, i: int| w.contains_key(k) && 0 <= i < w[k].len() implies #[trigger] w[k][i] < self.clauses@.len() by {
                if k != key as nat {
                    assert(list_entries(old(self).watches).contains_key(k));
                }
            }
        }
    }

    /// Changing only the watch lists, to lists of clauses of the arena, keeps
    /// the invariant.
    proof fn lemma_watches_changed(&self, o: Solver)
        requires
            o.inv(),
            self.watches_only_changed(&o),
            forall|k: nat, i: int|
                list_entries(self.watches).contains_key(k) && 0 <= i < list_entries(self.watches)[k].len()
                    ==> #[trigger] list_entries(self.watches)[k][i] < self.clauses@.len(),
        ensures
            self.inv(),
    {
        assert(self.model() == o.model());
        assert(self.trail_ok());
        assert(self.assigns_ok());
        assert(self.levels_ok());
        assert(self.reasons_ok());
        assert(self.clauses_ok());
        assert(self.roots_ok());
        assert(self.queue_ok());
        assert(self.heuristic_ok());
    }

    /// Every field but the watch lists is the same.
    spec fn watches_only_changed(&self, o: &Solver) -> bool {
        &&& self.trivially_unsat == o.trivially_unsat
        &&& self.clauses == o.clauses
        &&& self.learned_clauses == o.learned_clauses
        &&& self.bcp_queue == o.bcp_queue
        &&& self.decision_provider == o.decision_provider
        &&& self.restart == o.restart
        &&& self.conflicts == o.conflicts
        &&& self.assigns == o.assigns
        &&& self.reason == o.reason
        &&& self.level == o.level
        &&& self.trail == o.trail
        &&& self.trail_lim == o.trail_lim
        &&& self.formula == o.formula
        &&& self.vars == o.vars
    }
}

impl Solver {
    /// What unit propagation keeps: the trail only grows, on the same levels,
    /// and the clause arena keeps its size.
    spec fn extends(&self, o: &Solver) -> bool {
        &&& o.trail@.len() <= self.trail@.len()
        &&& forall|i: int| 0 <= i < o.trail@.len() ==> #[trigger] self.trail@[i] == o.trail@[i]
        &&& self.trail_lim@ == o.trail_lim@
        &&& forall|v: nat| #[trigger] usize_entries(o.reason).contains_key(v) ==> usize_entries(self.reason).contains_key(v)
            && usize_entries(self.reason)[v] == usize_entries(o.reason)[v]
        &&& self.clauses@.len() == o.clauses@.len()
        &&& self.formula == o.formula
        &&& self.vars == o.vars
        &&& self.restart == o.restart
        &&& self.conflicts == o.conflicts
        &&& self.learned_clauses == o.learned_clauses
    }

    /// Propagates the queued literals until none is left or a clause is
    /// false; returns that clause. Each literal taken off the queue visits
    /// the clauses on the watch list of its negation. When nothing is left
    /// to propagate, no clause has both watched literals false.
    #[verifier::spinoff_prover]
    #[verifier::rlimit(100)]
    fn unit_propagate(&mut self) -> (r: Option<usize>)
        requires
            old(self).inv(),
            old(self).watches_hold(),
            old(self).watch_listed(),
            old(self).queue_current(),
            old(self).units_assigned(),
        ensures
            final(self).inv(),
            final(self).bcp_queue@.len() == 0,
            final(self).extends(old(self)),
            final(self).watch_listed(),
            final(self).units_assigned(),
            r.is_none() ==> forall|k: int| 0 <= k < final(self).clauses@.len()
                ==> !pending_unit(#[trigger] final(self).clauses@[k]@, final(self).model()),
            r.is_some() ==> r.unwrap() < final(self).clauses@.len() && clause_false(
                final(self).clauses@[r.unwrap() as int]@,
                final(self).model(),
            ),
            r.is_some() ==> final(self).watches_hold_below(final(self).trail_lim@.len()),
            r.is_none() ==> final(self).watches_hold(),
            r.is_none() ==> forall|k: int| 0 <= k < final(self).clauses@.len() ==> !#[trigger] final(self).watches_false(k),
    {
        let ghost start = *self;
        proof {
            self.lemma_trail_len();
        }
        while self.bcp_queue.len() > 0
            invariant
                self.inv(),
                self.extends(&start),
                start == *old(self),
                self.watches_hold(),
                self.watch_listed(),
                self.queue_current(),
                self.units_assigned(),
            decreases self.vars@.len() - self.trail@.len(), self.bcp_queue@.len(),
        {
            let ghost before = *self;
            let unit = self.bcp_queue.pop_front().unwrap();
            proof {
                assert(before.queue_ok());
                assert(before.bcp_queue@[0] == unit);
                assert(self.trail@.contains(unit));
                assert forall|k: int| 0 <= k < self.bcp_queue@.len() implies self.trail@.contains(#[trigger] self.bcp_queue@[k]) by {
                    assert(self.bcp_queue@[k] == before.bcp_queue@[k + 1]);
                }
                assert(self.bcp_queue@ =~= before.bcp_queue@.drop_first());
            }
            let ghost upos: int = choose|k: int| 0 <= k < self.trail@.len() && self.trail@[k] == unit;
            proof {
                assert(unit.wf());
            }
            let neg = unit.negate();
            let key = neg.index();
            let ghost popped_state = *self;
            proof {
                assert(self.queue_ok());
                assert(self.model() == before.model());
                assert(self.inv());
            }
            let removed = list_map_remove(&mut self.watches, key);
            let clauses = match removed {
                Some(l) => l,
                None => Vec::new(),
            };
            proof {
                assert(self.inv()) by {
                    let w = list_entries(self.watches);
                    assert forall|k: nat, i: int| w.contains_key(k) && 0 <= i < w[k].len() implies #[trigger] w[k][i] < self.clauses@.len() by {
                        assert(list_entries(before.watches).contains_key(k));
                    }
                    self.lemma_watches_changed(popped_state);
                }
                assert forall|i: int| 0 <= i < clauses@.len() implies #[trigger] clauses@[i] < self.clauses@.len() by {
                    assert(list_entries(before.watches)[key as nat][i] == clauses@[i]);
                }
                self.lemma_after_pop(before, unit, clauses@);
                assert(clauses@.subrange(0, clauses@.len() as int) =~= clauses@);
                assert(Seq::<usize>::empty() + clauses@.subrange(0, clauses@.len() as int) =~= clauses@);
                // the literal taken off the queue is on the current level
                assert(before.queue_current());
                assert(before.on_trail_between(unit, before.segment_start(), before.trail@.len() as int));
                let pu = choose|pu: int| before.segment_start() <= pu < before.trail@.len() && #[trigger] before.trail@[pu].spec_var() == unit.spec_var();
                assert(lit_true(self.trail@[upos], self.model()));
                assert(lit_false(neg, self.model()));
                self.lemma_false_on_trail(neg);
                let qn = self.lit_pos(neg);
                assert(qn == pu) by {
                    if qn < pu {
                        assert(self.trail@[qn].spec_var() != self.trail@[pu].spec_var());
                    } else if qn > pu {
                        assert(self.trail@[pu].spec_var() != self.trail@[qn].spec_var());
                    }
                }
                lemma_level_at(self.trail_lim@, pu, self.trail_lim@.len());
                assert(self.queue_current()) by {
                    assert forall|k: int| 0 <= k < self.bcp_queue@.len() implies self.on_trail_between(
                        #[trigger] self.bcp_queue@[k],
                        self.segment_start(),
                        self.trail@.len() as int,
                    ) by {
                        assert(self.bcp_queue@[k] == before.bcp_queue@[k + 1]);
                        assert(before.on_trail_between(before.bcp_queue@[k + 1], before.segment_start(), before.trail@.len() as int));
                    }
                }
            }
            let mut kept: Vec<usize> = Vec::new();
            let mut j: usize = 0;
            let _n = self.clauses.len();
            while j < clauses.len()
                invariant
                    self.inv(),
                    self.extends(&start),
                    start == *old(self),
                    before.trail@.len() <= self.trail@.len(),
                    j <= clauses@.len(),
                    0 <= upos < before.trail@.len(),
                    self.trail@[upos] == unit,
                    unit.wf(),
                    neg == unit.spec_neg(),
                    neg.wf(),
                    key == neg.spec_index(),
                    forall|i: int| 0 <= i < clauses@.len() ==> #[trigger] clauses@[i] < self.clauses@.len(),
                    forall|i: int| 0 <= i < kept@.len() ==> #[trigger] kept@[i] < self.clauses@.len(),
                    self.bcp_queue@.len() + before.trail@.len() + 1 == before.bcp_queue@.len() + self.trail@.len(),
                    self.hold_except(neg, clauses@.subrange(j as int, clauses@.len() as int)),
                    self.listed_except(key as nat, kept@ + clauses@.subrange(j as int, clauses@.len() as int)),
                    self.queue_current(),
                    self.units_assigned(),
                    self.clauses@.len() <= usize::MAX,
                    lit_false(neg, self.model()),
                    self.lit_level(neg) == self.trail_lim@.len(),
                decreases clauses@.len() - j,
            {
                let ci = clauses[j];
                let ghost pre = *self;
                let ghost pend_new = clauses@.subrange(j + 1, clauses@.len() as int);
                let ghost kept_pre = kept@;
                let ghost c = pre.clauses@[ci as int]@;
                proof {
                    assert(clauses@.subrange(j as int, clauses@.len() as int) =~= seq![ci] + pend_new);
                }
                let update = self.clauses[ci].propagate(&unit, &self.assigns);
                proof {
                    assert(pre.clause_ok(c));
                    self.lemma_clause_replaced(pre, ci as int);
                    assert forall|k: int| 0 <= k < self.clauses@.len() && k != ci implies #[trigger] self.clauses@[k]@ == pre.clauses@[k]@ by {}
                    self.lemma_units_replaced(pre, ci as int);
                }
                let ghost a = crate::clause::watch_slot(c, neg);
                let ghost b = crate::clause::other_slot(c, a);
                match update {
                    WatchedUpdate::NoChange => {
                        kept.push(ci);
                        proof {
                            assert(a < 0) by {
                                if a >= 0 {
                                    assert(c[a] == neg);
                                }
                            }
                            assert(first_watch(c) != neg);
                            assert(second_watch(c) != neg);
                            assert(self.clauses@[ci as int]@ == c);
                            assert(pre.clauses@[ci as int] == pre.clauses@[ci as int]);
                            assert(self.watch_pair_ok(first_watch(c), second_watch(c)));
                            assert(self.watch_pair_ok(second_watch(c), first_watch(c)));
                            self.lemma_visit_kept(pre, neg, key as nat, ci as int, kept_pre, pend_new);
                        }
                    },
                    WatchedUpdate::NewWatched(watched) => {
                        let ghost mid = *self;
                        proof {
                            assert(watched.wf()) by {
                                let p = choose|p: int| 2 <= p < c.len() && c[p] == watched;
                            }
                        }
                        self.add_watch(watched.index(), ci);
                        proof {
                            let p = choose|p: int|
                                {
                                    &&& 2 <= p < c.len()
                                    &&& !lit_false(c[p], pre.model())
                                    &&& forall|i: int| 2 <= i < p ==> lit_false(#[trigger] c[i], pre.model())
                                    &&& watched == c[p]
                                    &&& mid.clauses@[ci as int]@ == c.update(a, c[p]).update(p, c[a])
                                };
                            assert(self.model() == pre.model());
                            assert(mid.watches == pre.watches);
                            assert forall|x: nat, k: usize| list_entries(pre.watches).contains_key(x)
                                && #[trigger] list_entries(pre.watches)[x].contains(k) implies list_entries(self.watches).contains_key(x)
                                && list_entries(self.watches)[x].contains(k) by {
                                assert(list_entries(mid.watches)[x].contains(k));
                            }
                            self.lemma_visit_moved(pre, neg, key as nat, ci as int, kept_pre, pend_new, a, p);
                        }
                    },
                    WatchedUpdate::NowUnit(u) => {
                        kept.push(ci);
                        proof {
                            let m = self.model();
                            assert(self.clauses@[ci as int]@ == c);
                            assert(lit_true(self.trail@[upos], m));
                            assert(0 <= a && c[a] == neg);
                            assert(u == c[b]);
                            assert(u.wf() && self.vars@.contains(u.spec_var()));
                            assert forall|l: Literal| #[trigger] c.contains(l) && l != u implies lit_false(l, m) by {
                                let i = choose|i: int| 0 <= i < c.len() && c[i] == l;
                                if i >= 2 {
                                    assert(lit_false(c[i], m));
                                } else if i != a {
                                    assert(i == b);
                                }
                            }
                        }
                        let ghost pre_assign = *self;
                        if self.assign(u, Some(ci)).is_err() {
                            let mut rest = j + 1;
                            let ghost snap = *self;
                            let ghost kept_at = kept@;
                            while rest < clauses.len()
                                invariant
                                    j < rest <= clauses@.len(),
                                    *self == snap,
                                    forall|i: int| 0 <= i < clauses@.len() ==> #[trigger] clauses@[i] < self.clauses@.len(),
                                    forall|i: int| 0 <= i < kept@.len() ==> #[trigger] kept@[i] < self.clauses@.len(),
                                    kept@ == kept_at + clauses@.subrange(j + 1, rest as int),
                                decreases clauses@.len() - rest,
                            {
                                kept.push(clauses[rest]);
                                proof {
                                    assert(clauses@.subrange(j + 1, rest + 1) =~= clauses@.subrange(j + 1, rest as int).push(clauses@[rest as int]));
                                }
                                rest = rest + 1;
                            }
                            proof {
                                assert(self.clauses@[ci as int]@ == c);
                                self.lemma_conflict_lists(pre, neg, key as nat, ci as int, kept_pre, pend_new, kept@);
                            }
                            let ghost pre_insert = *self;
                            list_map_insert(&mut self.watches, key, kept);
                            self.bcp_queue.clear();
                            proof {
                                self.lemma_conflict_exit(pre_insert, key as nat);
                                let m = self.model();
                                assert forall|i: int| 0 <= i < c.len() implies #[trigger] lit_false(c[i], m) by {
                                    assert(c.contains(c[i]));
                                }
                                assert(self.clauses@[ci as int]@ == c);
                                assert(pre.extends(&start));
                                assert(self.extends(&start));
                            }
                            return Some(ci);
                        }
                        proof {
                            assert(c.len() >= 2) by {
                                if c.len() == 1 {
                                    assert(u == neg);
                                }
                            }
                            assert(a == 0 || a == 1);
                            if pre_assign.model().contains_key(u.spec_var()) {
                                assert(*self == pre_assign);
                                self.lemma_true_level(u);
                                assert(self.clauses@[ci as int]@ == c);
                                if a == 0 {
                                    assert(first_watch(c) == neg && second_watch(c) == u);
                                } else {
                                    assert(first_watch(c) == u && second_watch(c) == neg);
                                }
                                assert(self.watch_pair_ok(neg, u));
                                assert(self.watch_pair_ok(u, neg));
                                self.lemma_visit_kept(pre, neg, key as nat, ci as int, kept_pre, pend_new);
                            } else {
                                assert(pre_assign.hold_except(neg, seq![ci] + pend_new)) by {
                                    assert forall|k: int| #![trigger pre_assign.clauses@[k]] 0 <= k < pre_assign.clauses@.len() implies {
                                        &&& (pre_assign.watch_pair_ok(first_watch(pre_assign.clauses@[k]@), second_watch(pre_assign.clauses@[k]@))
                                            || (first_watch(pre_assign.clauses@[k]@) == neg && (seq![ci] + pend_new).contains(k as usize)))
                                        &&& (pre_assign.watch_pair_ok(second_watch(pre_assign.clauses@[k]@), first_watch(pre_assign.clauses@[k]@))
                                            || (second_watch(pre_assign.clauses@[k]@) == neg && (seq![ci] + pend_new).contains(k as usize)))
                                    } by {
                                        assert(pre.clauses@[k]@ == pre_assign.clauses@[k]@);
                                    }
                                }
                                assert(pre_assign.listed_except(key as nat, kept_pre + (seq![ci] + pend_new))) by {
                                    assert forall|k: int| #![trigger pre_assign.clauses@[k]] 0 <= k < pre_assign.clauses@.len() implies
                                        pre_assign.clauses@[k]@ == pre.clauses@[k]@ by {}
                                    self.lemma_listed_same(pre, pre_assign, key as nat, kept_pre + (seq![ci] + pend_new));
                                }
                                assert(pre_assign.lit_level(neg) == pre.lit_level(neg));
                                self.lemma_visit_unit(pre_assign, neg, key as nat, ci as int, kept_pre, pend_new, u, a);
                            }
                        }
                    },
                }
                proof {
                    assert(self.clauses@.len() == pre.clauses@.len());
                    assert(self.trail_lim@ == pre.trail_lim@);
                    assert(self.restart == pre.restart);
                    assert(self.conflicts == pre.conflicts);
                    assert(self.learned_clauses == pre.learned_clauses);
                    assert(self.formula == pre.formula);
                    assert(self.vars == pre.vars);
                    assert(pre.trail@.len() <= self.trail@.len());
                    assert(forall|i: int| 0 <= i < pre.trail@.len() ==> #[trigger] self.trail@[i] == pre.trail@[i]);
                    assert(clauses@.subrange(j + 1, clauses@.len() as int) == pend_new);
                }
                j = j + 1;
            }
            let ghost pre_insert = *self;
            let ghost kept_all = kept@;
            list_map_insert(&mut self.watches, key, kept);
            proof {
                let w = list_entries(self.watches);
                assert forall|k: nat, i: int| w.contains_key(k) && 0 <= i < w[k].len() implies #[trigger] w[k][i] < self.clauses@.len() by {
                    if k != key as nat {
                        assert(list_entries(pre_insert.watches).contains_key(k));
                    }
                }
                assert(self.model() == pre_insert.model());
                assert(kept_all + clauses@.subrange(clauses@.len() as int, clauses@.len() as int) =~= kept_all);
                assert forall|k: int| #![trigger self.clauses@[k]] 0 <= k < self.clauses@.len() implies {
                    &&& w.contains_key(first_watch(self.clauses@[k]@).spec_index())
                    &&& w[first_watch(self.clauses@[k]@).spec_index()].contains(k as usize)
                    &&& w.contains_key(second_watch(self.clauses@[k]@).spec_index())
                    &&& w[second_watch(self.clauses@[k]@).spec_index()].contains(k as usize)
                } by {
                    assert(pre_insert.clauses@[k] == self.clauses@[k]);
                }
                assert(clauses@.subrange(clauses@.len() as int, clauses@.len() as int) =~= Seq::<usize>::empty());
                assert forall|k: int| #![trigger self.clauses@[k]] 0 <= k < self.clauses@.len() implies {
                    &&& self.watch_pair_ok(first_watch(self.clauses@[k]@), second_watch(self.clauses@[k]@))
                    &&& self.watch_pair_ok(second_watch(self.clauses@[k]@), first_watch(self.clauses@[k]@))
                } by {
                    assert(pre_insert.clauses@[k] == self.clauses@[k]);
                }
                self.lemma_trail_len();
            }
        }
        proof {
            self.lemma_no_false_watches();
            self.lemma_no_pending_units();
        }
        None
    }

    /// A clause replaced by one with the same literals keeps a clause of one
    /// literal as it was.
    proof fn lemma_units_replaced(&self, pre: Solver, ci: int)
        requires
            pre.units_assigned(),
            0 <= ci < pre.clauses@.len(),
            self.clauses@.len() == pre.clauses@.len(),
            forall|k: int| 0 <= k < self.clauses@.len() && k != ci ==> #[trigger] self.clauses@[k] == pre.clauses@[k],
            same_lits(self.clauses@[ci]@, pre.clauses@[ci]@),
            self.clauses@[ci]@.len() == pre.clauses@[ci]@.len(),
            self.trail == pre.trail,
            self.trail_lim == pre.trail_lim,
        ensures
            self.units_assigned(),
    {
        assert forall|k: int| #![trigger self.clauses@[k]]
            0 <= k < self.clauses@.len() && self.clauses@[k]@.len() == 1 implies exists|i: int|
                0 <= i < self.trail@.len() && (self.trail_lim@.len() == 0 || i < self.trail_lim@[0])
                    && #[trigger] self.trail@[i].spec_var() == self.clauses@[k]@[0].spec_var() by {
            if k == ci {
                let c = self.clauses@[k]@;
                assert(c.contains(c[0]));
                assert(pre.clauses@[k]@.contains(c[0]));
                assert(pre.clauses@[k]@[0] == c[0]);
            } else {
                assert(pre.clauses@[k] == self.clauses@[k]);
            }
            assert(pre.clauses@[k] == pre.clauses@[k]);
        }
    }

    /// With nothing queued and the discipline kept, no clause forces a
    /// literal that is still unassigned.
    proof fn lemma_no_pending_units(&self)
        requires
            self.inv(),
            self.watches_hold(),
            self.bcp_queue@.len() == 0,
            self.units_assigned(),
        ensures
            forall|k: int| 0 <= k < self.clauses@.len() ==> !pending_unit(#[trigger] self.clauses@[k]@, self.model()),
    {
        self.lemma_no_false_watches();
        assert forall|k: int| 0 <= k < self.clauses@.len() implies !pending_unit(#[trigger] self.clauses@[k]@, self.model()) by {
            let c = self.clauses@[k]@;
            let m = self.model();
            assert(self.clause_ok(c));
            if pending_unit(c, m) {
                let i = choose|i: int|
                    0 <= i < c.len() && !m.contains_key((#[trigger] c[i]).spec_var()) && forall|j: int|
                        0 <= j < c.len() && j != i ==> lit_false(#[trigger] c[j], m);
                if c.len() == 1 {
                    let p = choose|p: int| 0 <= p < self.trail@.len() && (self.trail_lim@.len() == 0 || p < self.trail_lim@[0])
                        && #[trigger] self.trail@[p].spec_var() == c[0].spec_var();
                    assert(lit_true(self.trail@[p], m));
                } else if i >= 2 {
                    assert(lit_false(c[0], m) && lit_false(c[1], m));
                    assert(self.watches_false(k));
                } else if i == 0 {
                    assert(lit_false(c[1], m));
                    assert(self.watch_pair_ok(second_watch(c), first_watch(c)));
                } else {
                    assert(lit_false(c[0], m));
                    assert(self.watch_pair_ok(first_watch(c), second_watch(c)));
                }
            }
        }
    }
}

impl Solver {
    /// The variable of the literal is assigned at a trail position in
    /// `lo..hi`.
    spec fn on_trail_between(&self, l: Literal, lo: int, hi: int) -> bool {
        exists|p: int| lo <= p < hi && #[trigger] self.trail@[p].spec_var() == l.spec_var()
    }

    /// The trail position where the current decision level begins.
    spec fn segment_start(&self) -> int {
        if self.trail_lim@.len() == 0 {
            0
        } else {
            self.trail_lim@.last() as int
        }
    }

    /// The literals left after resolving on the variable of `literal`: those of
    /// both lists over other variables, sorted and without repetitions.
    fn resolve(alits: &mut Vec<Literal>, blits: &Vec<Literal>, literal: Literal)
        requires
            literal.wf(),
            lits_wf(old(alits)@),
            lits_wf(blits@),
        ensures
            crate::clause::lits_strictly_sorted(final(alits)@),
            forall|l: Literal| #[trigger] final(alits)@.contains(l) <==> ((old(alits)@.contains(l) || blits@.contains(l))
                && l.spec_var() != literal.spec_var()),
    {
        let mut nums: Vec<i64> = Vec::new();
        let v = literal.var();
        let mut i: usize = 0;
        while i < alits.len()
            invariant
                i <= alits@.len(),
                lits_wf(alits@),
                v == literal.spec_var(),
                forall|x: i64| #[trigger] nums@.contains(x) <==> exists|k: int|
                    0 <= k < i && #[trigger] alits@[k].0 == x && alits@[k].spec_var() != v,
            decreases alits.len() - i,
        {
            let l = alits[i];
            let ghost pre = nums@;
            if l.var() != v {
                nums.push(l.0);
            }
            proof {
                assert forall|x: i64| #[trigger] nums@.contains(x) <==> exists|k: int|
                    0 <= k < i + 1 && #[trigger] alits@[k].0 == x && alits@[k].spec_var() != v by {
                    if nums@.contains(x) && !pre.contains(x) {
                        assert(alits@[i as int].0 == x);
                    }
                    if exists|k: int| 0 <= k < i + 1 && #[trigger] alits@[k].0 == x && alits@[k].spec_var() != v {
                        let k = choose|k: int| 0 <= k < i + 1 && #[trigger] alits@[k].0 == x && alits@[k].spec_var() != v;
                        if k < i {
                            assert(pre.contains(x));
                            let q = choose|q: int| 0 <= q < pre.len() && pre[q] == x;
                            assert(nums@[q] == x);
                        } else {
                            assert(nums@.last() == x);
                        }
                    }
                }
            }
            i = i + 1;
        }
        let ghost mid = nums@;
        let mut j: usize = 0;
        while j < blits.len()
            invariant
                j <= blits@.len(),
                lits_wf(blits@),
                v == literal.spec_var(),
                forall|x: i64| #[trigger] nums@.contains(x) <==> (mid.contains(x) || exists|k: int|
                    0 <= k < j && #[trigger] blits@[k].0 == x && blits@[k].spec_var() != v),
            decreases blits.len() - j,
        {
            let l = blits[j];
            let ghost pre = nums@;
            if l.var() != v {
                nums.push(l.0);
            }
            proof {
                assert forall|x: i64| #[trigger] nums@.contains(x) <==> (mid.contains(x) || exists|k: int|
                    0 <= k < j + 1 && #[trigger] blits@[k].0 == x && blits@[k].spec_var() != v) by {
                    if nums@.contains(x) && !pre.contains(x) {
                        assert(blits@[j as int].0 == x);
                    }
                    if pre.contains(x) {
                        let q = choose|q: int| 0 <= q < pre.len() && pre[q] == x;
                        assert(nums@[q] == x);
                    }
                    if exists|k: int| 0 <= k < j + 1 && #[trigger] blits@[k].0 == x && blits@[k].spec_var() != v {
                        let k = choose|k: int| 0 <= k < j + 1 && #[trigger] blits@[k].0 == x && blits@[k].spec_var() != v;
                        if k == j {
                            assert(nums@.last() == x);
                        }
                    }
                }
            }
            j = j + 1;
        }
        let ghost olda = alits@;
        *alits = crate::clause::sorted_unique(nums);
        proof {
            assert forall|l: Literal| #[trigger] alits@.contains(l) <==> ((olda.contains(l) || blits@.contains(l))
                && l.spec_var() != literal.spec_var()) by {
                if olda.contains(l) && l.spec_var() != v {
                    let k = choose|k: int| 0 <= k < olda.len() && olda[k] == l;
                    assert(olda[k].0 == l.0);
                    assert(mid.contains(l.0));
                }
                if blits@.contains(l) && l.spec_var() != v {
                    let k = choose|k: int| 0 <= k < blits@.len() && blits@[k] == l;
                    assert(blits@[k].0 == l.0);
                }
                if alits@.contains(l) {
                    assert(nums@.contains(l.0));
                    if mid.contains(l.0) {
                        let k = choose|k: int| 0 <= k < olda.len() && #[trigger] olda[k].0 == l.0 && olda[k].spec_var() != v;
                        assert(olda[k] == l);
                    } else {
                        let k = choose|k: int| 0 <= k < blits@.len() && #[trigger] blits@[k].0 == l.0 && blits@[k].spec_var() != v;
                        assert(blits@[k] == l);
                    }
                }
            }
        }
    }
}

impl Solver {
    /// Walks the current decision level back from the most recent
    /// assignment and finds the literals of `learned` assigned there. Returns
    /// the most recent one, with `true` when it is the only one.
    fn select_resolution_literal(&self, learned: &Vec<Literal>) -> (r: (Literal, bool))
        requires
            self.inv(),
            self.trail_lim@.len() > 0,
            lits_wf(learned@),
            exists|l: Literal| #[trigger] learned@.contains(l) && self.on_trail_between(l, self.segment_start(), self.trail@.len() as int),
        ensures
            learned@.contains(r.0),
            self.on_trail_between(r.0, self.segment_start(), self.trail@.len() as int),
            r.1 ==> forall|l: Literal| #[trigger] learned@.contains(l) && l.spec_var() != r.0.spec_var()
                ==> !self.on_trail_between(l, self.segment_start(), self.trail@.len() as int),
            !r.1 ==> exists|p: int| {
                &&& self.segment_start() <= p < self.trail@.len()
                &&& #[trigger] self.trail@[p].spec_var() == r.0.spec_var()
                &&& forall|l: Literal| #[trigger] learned@.contains(l) && self.on_trail_between(l, self.segment_start(), self.trail@.len() as int)
                    ==> self.on_trail_between(l, self.segment_start(), p + 1)
                &&& exists|l: Literal| #[trigger] learned@.contains(l) && l.spec_var() != r.0.spec_var()
                    && self.on_trail_between(l, self.segment_start(), p)
            },
    {
        let start = self.trail_lim[self.trail_lim.len() - 1];
        let n = self.trail.len();
        let ghost t = self.trail@;
        let mut i = n;
        let mut found: Option<Literal> = None;
        let ghost mut fpos: int = 0;
        while i > start
            invariant
                start as int == self.segment_start(),
                n == t.len(),
                t == self.trail@,
                self.inv(),
                lits_wf(learned@),
                start <= i <= n,
                found.is_none() ==> forall|l: Literal| #[trigger] learned@.contains(l) ==> !self.on_trail_between(l, i as int, n as int),
                found.is_some() ==> {
                    &&& learned@.contains(found.unwrap())
                    &&& i <= fpos < n
                    &&& t[fpos].spec_var() == found.unwrap().spec_var()
                    &&& forall|l: Literal| #[trigger] learned@.contains(l) && l.spec_var() != found.unwrap().spec_var()
                        ==> !self.on_trail_between(l, i as int, n as int)
                },
            decreases i,
        {
            i = i - 1;
            let cur = self.trail[i];
            let cv = cur.var();
            let mut k: usize = 0;
            let mut hit: Option<Literal> = None;
            while k < learned.len()
                invariant
                    k <= learned@.len(),
                    lits_wf(learned@),
                    cv == cur.spec_var(),
                    hit.is_none() ==> forall|q: int| 0 <= q < k ==> (#[trigger] learned@[q]).spec_var() != cv,
                    hit.is_some() ==> learned@.contains(hit.unwrap()) && hit.unwrap().spec_var() == cv,
                ensures
                    hit.is_none() ==> forall|q: int| 0 <= q < learned@.len() ==> (#[trigger] learned@[q]).spec_var() != cv,
                    hit.is_some() ==> learned@.contains(hit.unwrap()) && hit.unwrap().spec_var() == cv,
                decreases learned.len() - k,
            {
                if learned[k].var() == cv {
                    hit = Some(learned[k]);
                    break;
                }
                k = k + 1;
            }
            proof {
                assert(self.trail_ok());
                assert(t[i as int] == cur);
                assert forall|l: Literal| #[trigger] learned@.contains(l) && l.spec_var() != cv && !self.on_trail_between(l, i + 1, n as int)
                    implies !self.on_trail_between(l, i as int, n as int) by {
                    if self.on_trail_between(l, i as int, n as int) {
                        let p = choose|p: int| i <= p < n && #[trigger] self.trail@[p].spec_var() == l.spec_var();
                        if p > i {
                            assert(self.on_trail_between(l, i + 1, n as int));
                        }
                    }
                }
                if hit.is_none() {
                    assert forall|l: Literal| #[trigger] learned@.contains(l) implies l.spec_var() != cv by {
                        let q = choose|q: int| 0 <= q < learned@.len() && learned@[q] == l;
                        assert(learned@[q].spec_var() != cv);
                    }
                }
            }
            match hit {
                None => {},
                Some(l) => {
                    match found {
                        None => {
                            found = Some(l);
                            proof {
                                fpos = i as int;
                            }
                        },
                        Some(f) => {
                            proof {
                                assert(f.spec_var() != cv) by {
                                    assert(t[fpos].spec_var() != t[i as int].spec_var());
                                }
                                assert(self.on_trail_between(l, start as int, fpos)) by {
                                    assert(self.trail@[i as int].spec_var() == l.spec_var());
                                }
                                assert(self.on_trail_between(f, start as int, n as int)) by {
                                    assert(self.trail@[fpos].spec_var() == f.spec_var());
                                }
                                assert forall|l2: Literal| #[trigger] learned@.contains(l2) && self.on_trail_between(l2, start as int, n as int)
                                    implies self.on_trail_between(l2, start as int, fpos + 1) by {
                                    let p = choose|p: int| start <= p < n && #[trigger] self.trail@[p].spec_var() == l2.spec_var();
                                    if l2.spec_var() == f.spec_var() {
                                        assert(self.trail@[fpos].spec_var() == l2.spec_var());
                                    } else {
                                        if p > i {
                                            assert(self.on_trail_between(l2, i + 1, n as int));
                                        }
                                    }
                                }
                                assert(start <= fpos < n && self.trail@[fpos].spec_var() == f.spec_var());
                            }
                            return (f, false);
                        },
                    }
                },
            }
        }
        proof {
            if found.is_none() {
                let l = choose|l: Literal| #[trigger] learned@.contains(l) && self.on_trail_between(l, self.segment_start(), self.trail@.len() as int);
                assert(false);
            }
            let f = found.unwrap();
            assert(self.trail@[fpos].spec_var() == f.spec_var());
        }
        (found.unwrap(), true)
    }
}

impl Solver {
    /// The trail position of the literal's variable.
    spec fn lit_pos(&self, l: Literal) -> int {
        choose|p: int| 0 <= p < self.trail@.len() && #[trigger] self.trail@[p].spec_var() == l.spec_var()
    }

    /// The literals, all false, over variables of the formula, follow from
    /// the formula.
    spec fn learnable(&self, lits: Seq<Literal>) -> bool {
        &&& lits_wf(lits)
        &&& forall|l: Literal| #[trigger] lits.contains(l) ==> lit_false(l, self.model())
        &&& forall|l: Literal| #[trigger] lits.contains(l) ==> self.vars@.contains(l.spec_var())
        &&& entails(self.formula@, lits)
    }

    /// A false literal's variable sits on the trail, with the negated
    /// literal.
    proof fn lemma_false_on_trail(&self, l: Literal)
        requires
            self.inv(),
            l.wf(),
            lit_false(l, self.model()),
        ensures
            0 <= self.lit_pos(l) < self.trail@.len(),
            self.trail@[self.lit_pos(l)] == l.spec_neg(),
            self.on_trail_between(l, 0, self.trail@.len() as int),
    {
        let m = self.model();
        let i = choose|i: int| 0 <= i < self.trail@.len() && (#[trigger] self.trail@[i]).spec_var() == l.spec_var();
        assert(lit_true(self.trail@[i], m));
        assert(self.trail@[i].wf());
        let p = self.lit_pos(l);
        assert(self.trail@[p].spec_var() == l.spec_var());
        assert(p == i) by {
            if p != i {
                if p < i {
                    assert(self.trail@[p].spec_var() != self.trail@[i].spec_var());
                } else {
                    assert(self.trail@[i].spec_var() != self.trail@[p].spec_var());
                }
            }
        }
    }

    /// The conflict clause and the reason clauses of the trail, as a
    /// formula: position `i` holds the reason of trail position `i`, or the
    /// conflict clause where that position has no reason, and the last
    /// position holds the conflict clause.
    spec fn conflict_reasons(&self, conflict: int) -> Seq<Seq<Literal>> {
        Seq::new(
            (self.trail@.len() + 1) as nat,
            |i: int|
                if i < self.trail@.len() && usize_entries(self.reason).contains_key(self.trail@[i].spec_var()) {
                    self.clauses@[usize_entries(self.reason)[self.trail@[i].spec_var()] as int]@
                } else {
                    self.clauses@[conflict]@
                },
        )
    }

    /// First-UIP learning: resolves the conflict clause with the reasons of
    /// the literals assigned on the current level, most recent first, until
    /// one literal of the current level is left. Returns the literals, sorted,
    /// and that literal.
    #[verifier::spinoff_prover]
    #[verifier::rlimit(60)]
    fn get_clause_to_learn(&self, conflict: usize) -> (r: (Clause, Literal))
        requires
            self.inv(),
            self.trail_lim@.len() > 0,
            conflict < self.clauses@.len(),
            clause_false(self.clauses@[conflict as int]@, self.model()),
            exists|l: Literal| #[trigger] self.clauses@[conflict as int]@.contains(l)
                && self.on_trail_between(l, self.segment_start(), self.trail@.len() as int),
        ensures
            self.learnable(r.0@),
            lits_distinct(r.0@),
            crate::clause::lits_strictly_sorted(r.0@),
            r.0@.len() >= 1,
            r.0@.contains(r.1),
            self.on_trail_between(r.1, self.segment_start(), self.trail@.len() as int),
            forall|l: Literal| #[trigger] r.0@.contains(l) && l.spec_var() != r.1.spec_var()
                ==> !self.on_trail_between(l, self.segment_start(), self.trail@.len() as int),
            entails(self.conflict_reasons(conflict as int), r.0@),
    {
        let ghost c = self.clauses@[conflict as int]@;
        let ghost fr = self.conflict_reasons(conflict as int);
        let mut learned: Vec<Literal> = Vec::new();
        let lits = self.clauses[conflict].literals();
        let mut i: usize = 0;
        while i < lits.len()
            invariant
                i <= lits@.len(),
                lits@ == c,
                learned@ == c.subrange(0, i as int),
            decreases lits.len() - i,
        {
            learned.push(lits[i]);
            i = i + 1;
        }
        proof {
            assert(learned@ =~= c);
            assert(self.clause_ok(c));
            assert forall|l: Literal| #[trigger] c.contains(l) implies lit_false(l, self.model()) && self.vars@.contains(l.spec_var()) by {
                let q = choose|q: int| 0 <= q < c.len() && c[q] == l;
                assert(lit_false(c[q], self.model()));
            }
            assert(fr[self.trail@.len() as int] == c);
            assert forall|m: Model| #[trigger] formula_sat(fr, m) implies clause_sat(learned@, m) by {
                assert(clause_sat(fr[self.trail@.len() as int], m));
            }
        }
        let ghost mut bound: int = self.trail@.len() as int;
        loop
            invariant
                self.inv(),
                self.trail_lim@.len() > 0,
                self.learnable(learned@),
                exists|l: Literal| #[trigger] learned@.contains(l)
                    && self.on_trail_between(l, self.segment_start(), self.trail@.len() as int),
                0 <= bound <= self.trail@.len(),
                forall|l: Literal| #[trigger] learned@.contains(l) && self.on_trail_between(l, self.segment_start(), self.trail@.len() as int)
                    ==> self.on_trail_between(l, self.segment_start(), bound),
                fr == self.conflict_reasons(conflict as int),
                entails(fr, learned@),
            decreases bound,
        {
            let (lit, unique) = self.select_resolution_literal(&learned);
            if unique {
                let out = Clause::from_literals(learned);
                proof {
                    assert forall|m: Model| #[trigger] formula_sat(self.formula@, m) implies clause_sat(out@, m) by {
                        Self::lemma_same_lits_sat(out@, learned@, m);
                    }
                    assert forall|m: Model| #[trigger] formula_sat(fr, m) implies clause_sat(out@, m) by {
                        Self::lemma_same_lits_sat(out@, learned@, m);
                    }
                    assert forall|q: int| 0 <= q < out@.len() implies (#[trigger] out@[q]).wf() by {
                        assert(out@.contains(out@[q]));
                        assert(learned@.contains(out@[q]));
                        let z = choose|z: int| 0 <= z < learned@.len() && learned@[z] == out@[q];
                    }
                }
                return (out, lit);
            }
            let ghost p: int = choose|p: int| {
                &&& self.segment_start() <= p < self.trail@.len()
                &&& #[trigger] self.trail@[p].spec_var() == lit.spec_var()
                &&& forall|l: Literal| #[trigger] learned@.contains(l) && self.on_trail_between(l, self.segment_start(), self.trail@.len() as int)
                    ==> self.on_trail_between(l, self.segment_start(), p + 1)
                &&& exists|l: Literal| #[trigger] learned@.contains(l) && l.spec_var() != lit.spec_var()
                    && self.on_trail_between(l, self.segment_start(), p)
            };
            let ghost l2: Literal = choose|l: Literal| #[trigger] learned@.contains(l) && l.spec_var() != lit.spec_var()
                    && self.on_trail_between(l, self.segment_start(), p);
            let ghost t = self.trail@;
            let ghost tp = t[p];
            let tl = self.trail.len();
            proof {
                assert(lit.wf()) by {
                    let z = choose|z: int| 0 <= z < learned@.len() && learned@[z] == lit;
                }
                // the position of the resolved literal is below the bound
                assert(self.on_trail_between(lit, self.segment_start(), bound));
                let pb = choose|pb: int| self.segment_start() <= pb < bound && #[trigger] self.trail@[pb].spec_var() == lit.spec_var();
                assert(pb == p) by {
                    if pb < p {
                        assert(t[pb].spec_var() != t[p].spec_var());
                    } else if pb > p {
                        assert(t[p].spec_var() != t[pb].spec_var());
                    }
                }
                // it is not a decision, so it has a reason
                let q2 = choose|q2: int| self.segment_start() <= q2 < p && #[trigger] self.trail@[q2].spec_var() == l2.spec_var();
                assert(!self.trail_lim@.contains(p as usize)) by {
                    if self.trail_lim@.contains(p as usize) {
                        let k = choose|k: int| 0 <= k < self.trail_lim@.len() && self.trail_lim@[k] == p as usize;
                        assert(p < tl);
                        assert(self.trail_lim@[k] == p);
                        if k < self.trail_lim@.len() - 1 {
                            assert(self.trail_lim@[k] < self.trail_lim@[self.trail_lim@.len() - 1]);
                        }
                        assert(q2 < p);
                    }
                }
                assert(usize_entries(self.reason).contains_key(t[p].spec_var()));
                assert(self.reason_ok_at(p));
            }
            let reason = usize_map_get(&self.reason, lit.var()).unwrap();
            let ghost rc = self.clauses@[reason as int]@;
            let ghost old_learned = learned@;
            proof {
                assert(self.clause_ok(rc));
                assert(rc.contains(tp));
                assert(lit_true(tp, self.model()));
                assert(tp.wf());
                // the learned literal over the variable is the negation of the
                // trail literal
                assert forall|l: Literal| #[trigger] old_learned.contains(l) && l.spec_var() == tp.spec_var()
                    implies l == tp.spec_neg() by {
                    assert(lit_false(l, self.model()));
                    let z = choose|z: int| 0 <= z < old_learned.len() && old_learned[z] == l;
                    assert(l.wf());
                }
                assert forall|l: Literal| #[trigger] rc.contains(l) && l.spec_var() == tp.spec_var()
                    implies l == tp by {
                    if l != tp {
                        let j = choose|j: int| 0 <= j < p && #[trigger] t[j] == l.spec_neg();
                        let z = choose|z: int| 0 <= z < rc.len() && rc[z] == l;
                        assert(l.wf());
                        assert(t[j].spec_var() != t[p].spec_var());
                    }
                }
                assert forall|l: Literal| rc.contains(l) implies #[trigger] l.wf() by {
                    let z = choose|z: int| 0 <= z < rc.len() && rc[z] == l;
                }
                assert forall|l: Literal| old_learned.contains(l) implies #[trigger] l.wf() by {
                    let z = choose|z: int| 0 <= z < old_learned.len() && old_learned[z] == l;
                }
            }
            Self::resolve(&mut learned, self.clauses[reason].literals(), lit);
            proof {
                let nl = learned@;
                let m = self.model();
                lemma_resolution(self.formula@, old_learned, rc, tp, nl);
                assert(fr[p] == rc);
                assert forall|m: Model| #[trigger] formula_sat(fr, m) implies clause_sat(rc, m) by {
                    assert(clause_sat(fr[p], m));
                }
                lemma_resolution(fr, old_learned, rc, tp, nl);
                assert forall|l: Literal| #[trigger] nl.contains(l) implies lit_false(l, m) && self.vars@.contains(l.spec_var()) && l.wf() by {
                    if old_learned.contains(l) {
                    } else {
                        assert(rc.contains(l));
                        assert(l != tp);
                        let j = choose|j: int| 0 <= j < p && #[trigger] t[j] == l.spec_neg();
                        assert(lit_true(t[j], m));
                        assert(l.wf());
                    }
                }
                assert(lits_wf(nl)) by {
                    assert forall|q: int| 0 <= q < nl.len() implies (#[trigger] nl[q]).wf() by {
                        assert(nl.contains(nl[q]));
                    }
                }
                assert(nl.contains(l2));
                assert(self.on_trail_between(l2, self.segment_start(), self.trail@.len() as int));
                assert forall|l: Literal| #[trigger] nl.contains(l) && self.on_trail_between(l, self.segment_start(), self.trail@.len() as int)
                    implies self.on_trail_between(l, self.segment_start(), p) by {
                    let q = choose|q: int| self.segment_start() <= q < self.trail@.len() && #[trigger] t[q].spec_var() == l.spec_var();
                    if old_learned.contains(l) {
                        assert(self.on_trail_between(l, self.segment_start(), p + 1));
                        let q1 = choose|q1: int| self.segment_start() <= q1 < p + 1 && #[trigger] t[q1].spec_var() == l.spec_var();
                        assert(q1 == q) by {
                            if q1 < q {
                                assert(t[q1].spec_var() != t[q].spec_var());
                            } else if q1 > q {
                                assert(t[q].spec_var() != t[q1].spec_var());
                            }
                        }
                        assert(q != p);
                    } else {
                        assert(rc.contains(l) && l != tp);
                        let j = choose|j: int| 0 <= j < p && #[trigger] t[j] == l.spec_neg();
                        assert(l.wf());
                        assert(t[j].spec_var() == l.spec_var());
                        assert(j == q) by {
                            if j < q {
                                assert(t[j].spec_var() != t[q].spec_var());
                            } else if j > q {
                                assert(t[q].spec_var() != t[j].spec_var());
                            }
                        }
                    }
                }
                bound = p;
            }
        }
    }
}

impl Solver {
    /// The decision level of a literal's variable.
    spec fn lit_level(&self, l: Literal) -> nat {
        level_at(self.trail_lim@, self.lit_pos(l))
    }

    /// Looks up the decision level of a false literal.
    fn level_of(&self, l: Literal) -> (r: usize)
        requires
            self.inv(),
            l.wf(),
            lit_false(l, self.model()),
        ensures
            r == self.lit_level(l),
    {
        proof {
            self.lemma_false_on_trail(l);
            assert(self.levels_ok());
            let p = self.lit_pos(l);
            assert(self.trail@[p].spec_var() == l.spec_var());
        }
        usize_map_get(&self.level, l.var()).unwrap()
    }

    /// The highest decision level among the literals not on the current
    /// level, or 0 where there is none.
    fn get_backtrack_level(&self, clause: &Clause) -> (r: usize)
        requires
            self.inv(),
            self.learnable(clause@),
        ensures
            forall|l: Literal| #[trigger] clause@.contains(l) && self.lit_level(l) != self.trail_lim@.len()
                ==> self.lit_level(l) <= r,
            r == 0 || exists|l: Literal| #[trigger] clause@.contains(l) && self.lit_level(l) == r
                && r != self.trail_lim@.len(),
    {
        let current_dl = self.trail_lim.len();
        let literals = clause.literals();
        let mut dl: usize = 0;
        let mut i: usize = 0;
        while i < literals.len()
            invariant
                self.inv(),
                self.learnable(clause@),
                literals@ == clause@,
                current_dl == self.trail_lim@.len(),
                i <= literals@.len(),
                forall|k: int| 0 <= k < i && self.lit_level(literals@[k]) != current_dl
                    ==> self.lit_level(#[trigger] literals@[k]) <= dl,
                dl == 0 || exists|l: Literal| #[trigger] clause@.contains(l) && self.lit_level(l) == dl
                    && dl != current_dl,
            decreases literals.len() - i,
        {
            let l = literals[i];
            proof {
                assert(clause@.contains(l));
                assert(l.wf());
            }
            let vardl = self.level_of(l);
            if vardl != current_dl && vardl > dl {
                dl = vardl;
            }
            i = i + 1;
        }
        proof {
            assert forall|l: Literal| #[trigger] clause@.contains(l) && self.lit_level(l) != self.trail_lim@.len()
                implies self.lit_level(l) <= dl by {
                let k = choose|k: int| 0 <= k < literals@.len() && literals@[k] == l;
            }
        }
        dl
    }

    /// The highest decision level among the literals of a false clause.
    fn conflict_level(&self, ci: usize) -> (r: usize)
        requires
            self.inv(),
            ci < self.clauses@.len(),
            clause_false(self.clauses@[ci as int]@, self.model()),
        ensures
            forall|l: Literal| #[trigger] self.clauses@[ci as int]@.contains(l) ==> self.lit_level(l) <= r,
            exists|l: Literal| #[trigger] self.clauses@[ci as int]@.contains(l) && self.lit_level(l) == r,
    {
        let literals = self.clauses[ci].literals();
        let ghost c = self.clauses@[ci as int]@;
        proof {
            assert(self.clause_ok(c));
        }
        let mut dl: usize = self.level_of(literals[0]);
        proof {
            assert(c.contains(c[0]));
        }
        let mut i: usize = 1;
        while i < literals.len()
            invariant
                self.inv(),
                literals@ == c,
                c == self.clauses@[ci as int]@,
                clause_false(c, self.model()),
                lits_wf(c),
                1 <= i <= literals@.len(),
                forall|k: int| 0 <= k < i ==> self.lit_level(#[trigger] c[k]) <= dl,
                exists|l: Literal| #[trigger] c.contains(l) && self.lit_level(l) == dl,
            decreases literals.len() - i,
        {
            let vardl = self.level_of(literals[i]);
            if vardl > dl {
                dl = vardl;
                proof {
                    assert(c.contains(c[i as int]));
                }
            }
            i = i + 1;
        }
        proof {
            assert forall|l: Literal| #[trigger] c.contains(l) implies self.lit_level(l) <= dl by {
                let k = choose|k: int| 0 <= k < c.len() && c[k] == l;
            }
        }
        dl
    }
}

impl Solver {
    /// After a backjump to level `b`, a literal that was false on a level up
    /// to `b` is still false, at the same position and level, and the
    /// variable of a literal assigned above level `b` is unassigned.
    proof fn lemma_after_backjump(&self, old_self: Solver, b: nat, l: Literal)
        requires
            old_self.inv(),
            self.inv(),
            b < old_self.trail_lim@.len(),
            self.trail@ == old_self.trail@.subrange(0, old_self.trail_lim@[b as int] as int),
            self.trail_lim@ == old_self.trail_lim@.subrange(0, b as int),
            l.wf(),
            lit_false(l, old_self.model()) || lit_true(l, old_self.model()),
        ensures
            old_self.lit_level(l) <= b ==> {
                &&& lit_false(l, old_self.model()) ==> lit_false(l, self.model())
                &&& lit_true(l, old_self.model()) ==> lit_true(l, self.model())
                &&& self.lit_pos(l) == old_self.lit_pos(l)
                &&& self.lit_level(l) == old_self.lit_level(l)
            },
            old_self.lit_level(l) > b ==> !self.model().contains_key(l.spec_var()),
    {
        let ot = old_self.trail@;
        let t = self.trail@;
        let olim = old_self.trail_lim@;
        let target = olim[b as int] as int;
        let om = old_self.model();
        let m = self.model();
        let i = choose|i: int| 0 <= i < ot.len() && (#[trigger] ot[i]).spec_var() == l.spec_var();
        let p = old_self.lit_pos(l);
        assert(ot[p].spec_var() == l.spec_var());
        assert(p == i) by {
            if p < i {
                assert(ot[p].spec_var() != ot[i].spec_var());
            } else if p > i {
                assert(ot[i].spec_var() != ot[p].spec_var());
            }
        }
        crate::measure::lemma_level_above(olim, p, b);
        if old_self.lit_level(l) <= b {
            assert(p < target);
            assert(t[p] == ot[p]);
            assert(lit_true(t[p], m));
            assert(lit_true(ot[p], om));
            let q = self.lit_pos(l);
            assert(t[q].spec_var() == l.spec_var());
            assert(q == p) by {
                if q < p {
                    assert(t[q].spec_var() != t[p].spec_var());
                } else if q > p {
                    assert(t[p].spec_var() != t[q].spec_var());
                }
            }
            crate::measure::lemma_level_prefix(olim, b, p);
        } else {
            if m.contains_key(l.spec_var()) {
                let j = choose|j: int| 0 <= j < t.len() && (#[trigger] t[j]).spec_var() == l.spec_var();
                assert(t[j] == ot[j]);
                assert(j != p);
                if j < p {
                    assert(ot[j].spec_var() != ot[p].spec_var());
                } else {
                    assert(ot[p].spec_var() != ot[j].spec_var());
                }
            }
        }
    }

    /// Learns from a false clause: returns the learned clause, its asserting
    /// literal (at position 0) and the level to jump back to; `None` for a
    /// conflict at level 0.
    fn analyse_conflict(&self, conflict: usize) -> (r: Option<(Clause, Literal, usize)>)
        requires
            self.inv(),
            conflict < self.clauses@.len(),
            clause_false(self.clauses@[conflict as int]@, self.model()),
            self.trail_lim@.len() > 0 ==> exists|l: Literal| #[trigger] self.clauses@[conflict as int]@.contains(l)
                && self.on_trail_between(l, self.segment_start(), self.trail@.len() as int),
        ensures
            r.is_none() <==> self.trail_lim@.len() == 0,
            r.is_some() ==> {
                let (c, u, b) = r.unwrap();
                &&& b < self.trail_lim@.len()
                &&& self.learnable(c@)
                &&& lits_distinct(c@)
                &&& c@.len() >= 1
                &&& c@[0] == u
                &&& c@.len() >= 2 ==> self.lit_level(c@[1]) == b
                &&& c@.len() == 1 ==> b == 0
                &&& self.lit_level(u) == self.trail_lim@.len()
                &&& forall|l: Literal| #[trigger] c@.contains(l) && l != u ==> self.lit_level(l) <= b
            },
    {
        if self.trail_lim.len() == 0 {
            return None;
        }
        let (mut clause, unit) = self.get_clause_to_learn(conflict);
        let lvl = self.get_backtrack_level(&clause);
        let ghost d = self.trail_lim@.len();
        proof {
            let start = self.segment_start();
            assert(unit.wf() && lit_false(unit, self.model()));
            self.lemma_false_on_trail(unit);
            let pu = choose|pu: int| start <= pu < self.trail@.len() && #[trigger] self.trail@[pu].spec_var() == unit.spec_var();
            assert(pu == self.lit_pos(unit)) by {
                let q = self.lit_pos(unit);
                if q < pu {
                    assert(self.trail@[q].spec_var() != self.trail@[pu].spec_var());
                } else if q > pu {
                    assert(self.trail@[pu].spec_var() != self.trail@[q].spec_var());
                }
            }
            lemma_level_at(self.trail_lim@, pu, d);
            assert forall|l: Literal| #[trigger] clause@.contains(l) && l != unit implies self.lit_level(l) <= lvl by {
                assert(l.wf() && lit_false(l, self.model()));
                if l.spec_var() == unit.spec_var() {
                    assert(l == unit);
                }
                self.lemma_false_on_trail(l);
                let q = self.lit_pos(l);
                if q >= start {
                    assert(self.on_trail_between(l, start, self.trail@.len() as int));
                }
                crate::measure::lemma_level_above(self.trail_lim@, q, (d - 1) as nat);
            }
            if lvl != 0 {
                let l = choose|l: Literal| #[trigger] clause@.contains(l) && self.lit_level(l) == lvl && lvl != d;
                crate::measure::lemma_level_le(self.trail_lim@, self.lit_pos(l));
            }
        }
        let n = clause.literals().len();
        let mut k: usize = 0;
        while k < n
            invariant
                k <= n,
                n == clause@.len(),
                forall|q: int| 0 <= q < k ==> clause@[q] != unit,
            ensures
                k < n ==> clause@[k as int] == unit,
                forall|q: int| 0 <= q < k ==> clause@[q] != unit,
            decreases n - k,
        {
            if clause.literals()[k] == unit {
                break;
            }
            k = k + 1;
        }
        proof {
            if k == n {
                let q = choose|q: int| 0 <= q < clause@.len() && clause@[q] == unit;
            }
        }
        let ghost before_swap = clause@;
        clause.swap_literals(0, k);
        proof {
            assert(clause@[0] == unit);
            assert forall|m: Model| #[trigger] formula_sat(self.formula@, m) implies clause_sat(clause@, m) by {
                Self::lemma_same_lits_sat(clause@, before_swap, m);
            }
            assert forall|q: int| 0 <= q < clause@.len() implies (#[trigger] clause@[q]).wf() by {
                assert(clause@.contains(clause@[q]));
                assert(before_swap.contains(clause@[q]));
                let z = choose|z: int| 0 <= z < before_swap.len() && before_swap[z] == clause@[q];
            }
            assert(self.learnable(clause@));
            assert(lits_distinct(clause@));
        }
        // the second watch goes to a literal of the level to jump back to
        if n >= 2 {
            let ghost c1 = clause@;
            proof {
                if lvl != 0 {
                    let l = choose|l: Literal| #[trigger] before_swap.contains(l) && self.lit_level(l) == lvl && lvl != d;
                    assert(c1.contains(l));
                    assert(l != unit);
                } else {
                    assert(c1[1] != c1[0]);
                    assert(c1.contains(c1[1]));
                    assert(self.lit_level(c1[1]) <= lvl);
                }
            }
            let mut q: usize = 1;
            while q < n
                invariant
                    1 <= q <= n,
                    n == c1.len(),
                    clause@ == c1,
                    self.inv(),
                    self.learnable(c1),
                    forall|z: int| 1 <= z < q ==> self.lit_level(#[trigger] c1[z]) != lvl,
                ensures
                    q < n ==> self.lit_level(c1[q as int]) == lvl,
                    forall|z: int| 1 <= z < q ==> self.lit_level(#[trigger] c1[z]) != lvl,
                decreases n - q,
            {
                let l = clause.literals()[q];
                proof {
                    assert(c1.contains(l));
                }
                if self.level_of(l) == lvl {
                    break;
                }
                q = q + 1;
            }
            if q < n {
                let ghost c2 = clause@;
                clause.swap_literals(1, q);
                proof {
                    assert forall|m: Model| #[trigger] formula_sat(self.formula@, m) implies clause_sat(clause@, m) by {
                        Self::lemma_same_lits_sat(clause@, c2, m);
                    }
                    assert forall|z: int| 0 <= z < clause@.len() implies (#[trigger] clause@[z]).wf() by {
                        assert(clause@.contains(clause@[z]));
                        assert(c2.contains(clause@[z]));
                        let y = choose|y: int| 0 <= y < c2.len() && c2[y] == clause@[z];
                    }
                }
            } else {
                proof {
                    if lvl != 0 {
                        let l = choose|l: Literal| #[trigger] before_swap.contains(l) && self.lit_level(l) == lvl && lvl != d;
                        assert(c1.contains(l));
                        let z = choose|z: int| 0 <= z < c1.len() && c1[z] == l;
                        assert(z != 0);
                    } else {
                        assert(self.lit_level(c1[1]) == 0);
                    }
                }
            }
        }
        Some((clause, unit, lvl))
    }
}

impl Solver {
    /// Appending a clause that follows from the formula to the arena, with
    /// its variables counted by the heuristic, keeps the invariant.
    proof fn lemma_clause_pushed(&self, old_self: Solver)
        requires
            old_self.inv(),
            self.clauses@.len() == old_self.clauses@.len() + 1,
            forall|k: int| 0 <= k < old_self.clauses@.len() ==> #[trigger] self.clauses@[k] == old_self.clauses@[k],
            old_self.clause_ok(self.clauses@.last()@),
            self.decision_provider.wf(),
            self.decision_provider@.dom() == old_self.decision_provider@.dom(),
            forall|k: nat, i: int|
                list_entries(self.watches).contains_key(k) && 0 <= i < list_entries(self.watches)[k].len()
                    ==> #[trigger] list_entries(self.watches)[k][i] < self.clauses@.len(),
            self.trivially_unsat == old_self.trivially_unsat,
            self.trail == old_self.trail,
            self.trail_lim == old_self.trail_lim,
            self.assigns == old_self.assigns,
            self.level == old_self.level,
            self.reason == old_self.reason,
            self.bcp_queue == old_self.bcp_queue,
            self.formula == old_self.formula,
            self.vars == old_self.vars,
        ensures
            self.inv(),
    {
        assert(self.model() == old_self.model());
        assert forall|k: int| 0 <= k < self.clauses@.len() implies self.clause_ok((#[trigger] self.clauses@[k])@) by {
            if k < old_self.clauses@.len() {
                assert(old_self.clause_ok(old_self.clauses@[k]@));
            }
        }
        assert forall|j: int| 0 <= j < self.formula@.len() implies same_lits((#[trigger] self.clauses@[j])@, self.formula@[j]) by {
            assert(same_lits(old_self.clauses@[j]@, old_self.formula@[j]));
        }
        assert(self.clauses_ok());
        let t = self.trail@;
        let r = usize_entries(self.reason);
        assert forall|i: int| 0 <= i < t.len() && r.contains_key((#[trigger] t[i]).spec_var()) implies self.reason_ok_at(i) by {
            assert(old_self.reason_ok_at(i));
            let k = r[t[i].spec_var()] as int;
            assert(self.clauses@[k] == old_self.clauses@[k]);
        }
        assert(self.trail_ok());
        assert(self.assigns_ok());
        assert(self.levels_ok());
        assert(self.reasons_ok());
        assert(self.roots_ok());
        assert(self.queue_ok());
        assert(self.heuristic_ok());
    }

    /// Installs a learned clause, watching its first two literals, and
    /// assigns its asserting literal with the clause as reason.
    fn add_learned_clause(&mut self, clause: Clause, unit: Literal) -> (r: Result<(), ()>)
        requires
            old(self).inv(),
            old(self).clause_ok(clause@),
            clause@.contains(unit),
            !old(self).model().contains_key(unit.spec_var()),
            forall|l: Literal| #[trigger] clause@.contains(l) && l != unit ==> lit_false(l, old(self).model()),
            old(self).watches_hold(),
            old(self).watch_listed(),
            old(self).bcp_queue@.len() == 0,
            clause@[0] == unit,
            clause@.len() >= 2 ==> old(self).lit_level(clause@[1]) == old(self).trail_lim@.len(),
            clause@.len() == 1 ==> old(self).trail_lim@.len() == 0,
            old(self).units_assigned(),
        ensures
            final(self).units_assigned(),
            r.is_ok(),
            final(self).inv(),
            final(self).watches_hold(),
            final(self).watch_listed(),
            final(self).queue_current(),
            final(self).trail@ == old(self).trail@.push(unit),
            final(self).trail_lim@ == old(self).trail_lim@,
            final(self).bcp_queue@ == old(self).bcp_queue@.push(unit),
            final(self).formula == old(self).formula,
            final(self).vars == old(self).vars,
            final(self).restart == old(self).restart,
            final(self).conflicts == old(self).conflicts,
            final(self).clauses@.len() == old(self).clauses@.len() + 1,
            final(self).clauses@.last()@ == clause@,
            clause_sat(final(self).clauses@.last()@, final(self).model()),
            final(self).learned_clauses@ == old(self).learned_clauses@.push(old(self).clauses@.len() as usize),
            forall|x: nat| #[trigger] list_entries(final(self).watches).contains_key(x)
                && list_entries(final(self).watches)[x].contains(old(self).clauses@.len() as usize)
                ==> x == first_watch(clause@).spec_index() || x == second_watch(clause@).spec_index(),
    {
        let ghost old_self = *self;
        proof {
            crate::decision_provider::lemma_occur_all_dom(self.decision_provider@, clause@);
        }
        self.decision_provider.new_clause(clause.literals());
        proof {
            assert forall|v: usize| #[trigger] self.decision_provider@.contains_key(v) <==> old_self.decision_provider@.contains_key(v) by {
                if exists|i: int| 0 <= i < clause@.len() && (#[trigger] clause@[i]).spec_var() as usize == v {
                    let i = choose|i: int| 0 <= i < clause@.len() && (#[trigger] clause@[i]).spec_var() as usize == v;
                    assert(self.vars@.contains(clause@[i].spec_var()));
                }
            }
            assert(self.decision_provider@.dom() =~= old_self.decision_provider@.dom());
        }
        let (wl1, wl2) = clause.watched_literals();
        let k = self.clauses.len();
        self.clauses.push(clause);
        proof {
            assert(self.clauses@.last() == clause);
            self.lemma_clause_pushed(old_self);
            assert(wl1.wf() && wl2.wf());
        }
        let ghost pushed = *self;
        self.add_watch(wl1.index(), k);
        let ghost watched_once = *self;
        if wl1 != wl2 {
            self.add_watch(wl2.index(), k);
        }
        proof {
            self.lemma_watches_changed(pushed);
            assert forall|x: nat, j: usize| list_entries(pushed.watches).contains_key(x)
                && #[trigger] list_entries(pushed.watches)[x].contains(j) implies list_entries(self.watches).contains_key(x)
                && list_entries(self.watches)[x].contains(j) by {
                assert(list_entries(watched_once.watches).contains_key(x) && list_entries(watched_once.watches)[x].contains(j));
            }
            assert(list_entries(self.watches).contains_key(wl1.spec_index()) && list_entries(self.watches)[wl1.spec_index()].contains(k)) by {
                assert(list_entries(watched_once.watches)[wl1.spec_index()].contains(k));
            }
            self.lemma_listed_after_push(old_self, pushed);
        }
        self.learned_clauses.push(k);
        proof {
            let m = self.model();
            assert(m == old_self.model());
            assert(self.clauses@[k as int] == clause);
            assert(self.inv()) by {
                assert(self.trail_ok());
                assert(self.assigns_ok());
                assert(self.levels_ok());
                assert(self.reasons_ok());
                assert(self.clauses_ok());
                assert(self.roots_ok());
                assert(self.queue_ok());
                assert(self.heuristic_ok());
            }
            assert(unit.wf()) by {
                let z = choose|z: int| 0 <= z < clause@.len() && clause@[z] == unit;
            }
            assert(self.vars@.contains(unit.spec_var())) by {
                let z = choose|z: int| 0 <= z < clause@.len() && clause@[z] == unit;
            }
        }
        let _n = self.clauses.len();
        let ghost s1 = *self;
        proof {
            assert forall|x: nat| #[trigger] list_entries(self.watches).contains_key(x)
                && list_entries(self.watches)[x].contains(k)
                implies x == first_watch(clause@).spec_index() || x == second_watch(clause@).spec_index() by {
                if x != wl1.spec_index() && x != wl2.spec_index() {
                    assert(list_entries(watched_once.watches)[x] == list_entries(self.watches)[x]);
                    assert(list_entries(pushed.watches)[x] == list_entries(watched_once.watches)[x]);
                    assert(old_self.clauses_ok());
                    let z = choose|z: int| 0 <= z < list_entries(pushed.watches)[x].len() && list_entries(pushed.watches)[x][z] == k;
                    assert(list_entries(old_self.watches)[x][z] < old_self.clauses@.len());
                }
                assert(clause@ == self.clauses@[k as int]@);
            }
            s1.lemma_new_clause_excused(old_self, k as int);
            assert(s1.clauses@[k as int]@ == clause@);
            if clause@.len() >= 2 {
                assert(clause@.contains(clause@[1]));
                assert(clause@[1] != unit) by {
                    assert(lits_distinct(clause@));
                }
                assert(lit_false(clause@[1], s1.model()));
                assert(s1.trail == old_self.trail);
                assert(s1.trail_lim == old_self.trail_lim);
                assert(s1.lit_level(clause@[1]) == old_self.lit_level(clause@[1]));
            }
        }
        let r = self.assign(unit, Some(k));
        proof {
            let z = choose|z: int| 0 <= z < clause@.len() && clause@[z] == unit;
            assert(lit_true(clause@[z], self.model()));
            self.lemma_new_clause_held(s1, k as int, unit);
            self.lemma_units_learned(old_self, k as int, unit);
        }
        r
    }
}

impl Solver {
    /// The progress measure of the search state.
    spec fn progress(&self) -> nat {
        progress(self.trail_lim@, self.trail@.len(), self.vars@.len())
    }

    /// Resolves a false clause: a clause false on level 0 proves the formula
    /// unsatisfiable (`false`); otherwise the solver jumps back to the
    /// highest level of the clause, learns a clause, jumps back further and
    /// asserts the learned literal (`true`).
    #[verifier::spinoff_prover]
    #[verifier::rlimit(100)]
    fn handle_conflict(&mut self, ci: usize) -> (r: bool)
        requires
            old(self).inv(),
            ci < old(self).clauses@.len(),
            clause_false(old(self).clauses@[ci as int]@, old(self).model()),
            old(self).bcp_queue@.len() == 0,
            old(self).watches_hold_below(old(self).trail_lim@.len()),
            old(self).watch_listed(),
            old(self).units_assigned(),
        ensures
            r ==> final(self).units_assigned(),
            !r ==> !satisfiable(old(self).formula@),
            r ==> final(self).inv(),
            r ==> final(self).watches_hold(),
            r ==> final(self).watch_listed(),
            r ==> final(self).queue_current(),
            r ==> final(self).progress() > old(self).progress(),
            r ==> final(self).clauses@.len() == old(self).clauses@.len() + 1,
            r ==> clause_sat(final(self).clauses@.last()@, final(self).model()),
            final(self).formula == old(self).formula,
            final(self).vars == old(self).vars,
            final(self).restart == old(self).restart,
            final(self).conflicts == old(self).conflicts,
    {
        let ghost s0 = *self;
        let ghost c = self.clauses@[ci as int]@;
        let bc = self.conflict_level(ci);
        proof {
            assert(self.clause_ok(c));
        }
        if bc == 0 {
            proof {
                assert forall|l: Literal| c.contains(l) implies entails_lit(self.formula@, #[trigger] l.spec_neg()) by {
                    let z = choose|z: int| 0 <= z < c.len() && c[z] == l;
                    assert(lit_false(c[z], self.model()));
                    self.lemma_false_on_trail(l);
                    let p = self.lit_pos(l);
                    if self.trail_lim@.len() > 0 {
                        crate::measure::lemma_level_above(self.trail_lim@, p, 0);
                    }
                    assert(self.roots_ok());
                }
                assert forall|l: Literal| c.contains(l) implies #[trigger] l.wf() by {
                    let z = choose|z: int| 0 <= z < c.len() && c[z] == l;
                }
                lemma_refuted_clause(self.formula@, c);
            }
            return false;
        }
        let ghost top = choose|l: Literal| #[trigger] c.contains(l) && self.lit_level(l) == bc;
        proof {
            assert(top.wf()) by {
                let z = choose|z: int| 0 <= z < c.len() && c[z] == top;
                assert(lit_false(c[z], self.model()));
            }
            self.lemma_false_on_trail(top);
            crate::measure::lemma_level_le(self.trail_lim@, self.lit_pos(top));
        }
        if bc < self.trail_lim.len() {
            self.pop_levels(bc);
            proof {
                assert forall|l: Literal| c.contains(l) implies lit_false(l, self.model()) && self.lit_level(l) == s0.lit_level(l) by {
                    let z = choose|z: int| 0 <= z < c.len() && c[z] == l;
                    assert(lit_false(c[z], s0.model()));
                    self.lemma_after_backjump(s0, bc as nat, l);
                }
                assert forall|z: int| 0 <= z < c.len() implies #[trigger] lit_false(c[z], self.model()) by {
                    assert(c.contains(c[z]));
                }
            }
        }
        let ghost s1 = *self;
        proof {
            if bc < s0.trail_lim@.len() {
                self.lemma_hold_to_below(self.trail_lim@.len());
            }
            assert(self.trail_lim@.len() == bc);
            assert(self.clauses@[ci as int]@ == c);
            assert(lit_false(top, self.model()));
            self.lemma_false_on_trail(top);
            let p = self.lit_pos(top);
            crate::measure::lemma_level_above(self.trail_lim@, p, (bc - 1) as nat);
            assert(self.on_trail_between(top, self.segment_start(), self.trail@.len() as int)) by {
                assert(self.trail@[p].spec_var() == top.spec_var());
            }
        }
        let analysis = self.analyse_conflict(ci);
        let (clause, unit, level) = analysis.unwrap();
        proof {
            assert(clause@[0] == unit);
            assert(clause@.contains(unit));
            assert(unit.wf());
            assert(lit_false(unit, self.model()));
        }
        self.pop_levels(level);
        proof {
            self.lemma_after_backjump(s1, level as nat, unit);
            assert forall|l: Literal| #[trigger] clause@.contains(l) && l != unit implies lit_false(l, self.model()) by {
                assert(lit_false(l, s1.model()));
                assert(l.wf()) by {
                    let z = choose|z: int| 0 <= z < clause@.len() && clause@[z] == l;
                }
                self.lemma_after_backjump(s1, level as nat, l);
            }
            assert(self.clause_ok(clause@)) by {
                assert forall|q: int| 0 <= q < clause@.len() implies self.vars@.contains((#[trigger] clause@[q]).spec_var()) by {
                    assert(clause@.contains(clause@[q]));
                }
            }
            assert(clause@.contains(unit)) by {
                assert(clause@[0] == unit);
            }
            if clause@.len() >= 2 {
                assert(clause@.contains(clause@[1]));
                assert(clause@[1] != unit);
                assert(clause@[1].wf());
                assert(lit_false(clause@[1], s1.model()));
                self.lemma_after_backjump(s1, level as nat, clause@[1]);
            }
        }
        let ghost s2 = *self;
        let stored = self.add_learned_clause(clause, unit);
        proof {
            let lim0 = s0.trail_lim@;
            let b = level as nat;
            let n = self.vars@.len();
            s0.lemma_trail_len();
            assert(b < lim0.len());
            assert(s2.trail_lim@ =~= lim0.subrange(0, b as int)) by {
                if bc < lim0.len() {
                    assert(s1.trail_lim@ =~= lim0.subrange(0, bc as int));
                } else {
                    assert(s1.trail_lim@ =~= lim0);
                }
            }
            assert(s2.trail@.len() == lim0[b as int]) by {
                if bc < lim0.len() {
                    assert(s1.trail_lim@[b as int] == lim0[b as int]);
                }
            }
            assert(lim0[b as int] < s0.trail@.len());
            crate::measure::lemma_progress_backjump(lim0, b, s0.trail@.len() as nat, n);
            assert(self.trail_lim@ =~= lim0.subrange(0, b as int));
        }
        true
    }
}

impl Solver {
    /// Adding an input clause, appended to the arena with its variables
    /// counted by the heuristic, keeps the invariant.
    proof fn lemma_input_pushed(&self, old_self: Solver, x: Seq<Literal>)
        requires
            old_self.inv(),
            old_self.clauses@.len() == old_self.formula@.len(),
            self.formula@ == old_self.formula@.push(x),
            same_lits(self.clauses@.last()@, x),
            self.clauses@.len() == old_self.clauses@.len() + 1,
            forall|k: int| 0 <= k < old_self.clauses@.len() ==> #[trigger] self.clauses@[k] == old_self.clauses@[k],
            ({
                let c = self.clauses@.last()@;
                &&& c.len() >= 1
                &&& lits_wf(c)
                &&& lits_distinct(c)
                &&& forall|i: int| 0 <= i < c.len() ==> self.vars@.contains((#[trigger] c[i]).spec_var())
            }),
            old_self.vars@.subset_of(self.vars@),
            self.vars@.finite(),
            self.decision_provider.wf(),
            forall|v: nat| #[trigger] self.vars@.contains(v) ==> v < usize::MAX && self.decision_provider@.contains_key(v as usize),
            forall|v: usize| #[trigger] self.decision_provider@.contains_key(v) ==> self.vars@.contains(v as nat),
            forall|k: nat, i: int|
                list_entries(self.watches).contains_key(k) && 0 <= i < list_entries(self.watches)[k].len()
                    ==> #[trigger] list_entries(self.watches)[k][i] < self.clauses@.len(),
            self.trivially_unsat == old_self.trivially_unsat,
            self.trail == old_self.trail,
            self.trail_lim == old_self.trail_lim,
            self.assigns == old_self.assigns,
            self.level == old_self.level,
            self.reason == old_self.reason,
            self.bcp_queue == old_self.bcp_queue,
        ensures
            self.inv(),
    {
        let f = self.formula@;
        let of = old_self.formula@;
        assert(self.model() == old_self.model());
        let last = self.clauses@.len() - 1;
        assert forall|k: int| 0 <= k < self.clauses@.len() implies self.clause_ok((#[trigger] self.clauses@[k])@) by {
            if k < old_self.clauses@.len() {
                let c = old_self.clauses@[k]@;
                assert(old_self.clause_ok(c));
                lemma_entails_push(of, x, c);
                assert forall|i: int| 0 <= i < c.len() implies self.vars@.contains((#[trigger] c[i]).spec_var()) by {
                    assert(old_self.vars@.contains(c[i].spec_var()));
                }
            } else {
                let c = self.clauses@[k]@;
                assert(f[f.len() - 1] == x);
                assert forall|m: Model| #[trigger] formula_sat(f, m) implies clause_sat(c, m) by {
                    assert(clause_sat(f[f.len() - 1], m));
                    Self::lemma_same_lits_sat(c, x, m);
                }
            }
        }
        assert forall|j: int| 0 <= j < f.len() implies same_lits((#[trigger] self.clauses@[j])@, f[j]) by {
            if j < of.len() {
                assert(same_lits(old_self.clauses@[j]@, of[j]));
                assert(f[j] == of[j]);
            } else {
                assert(f[j] == x);
                assert(self.clauses@[j] == self.clauses@.last());
            }
        }
        assert(self.clauses_ok());
        let t = self.trail@;
        let r = usize_entries(self.reason);
        assert forall|i: int| 0 <= i < t.len() && r.contains_key((#[trigger] t[i]).spec_var()) implies self.reason_ok_at(i) by {
            assert(old_self.reason_ok_at(i));
            let k = r[t[i].spec_var()] as int;
            assert(self.clauses@[k] == old_self.clauses@[k]);
        }
        assert forall|i: int|
            0 <= i < t.len() && (self.trail_lim@.len() == 0 || i < self.trail_lim@[0]) implies entails_lit(f, #[trigger] t[i]) by {
            assert(entails_lit(of, t[i]));
            lemma_entails_lit_push(of, x, t[i]);
        }
        assert forall|i: int| 0 <= i < t.len() implies self.vars@.contains((#[trigger] t[i]).spec_var()) by {
            assert(old_self.vars@.contains(t[i].spec_var()));
        }
        assert(self.trail_ok());
        assert(self.assigns_ok());
        assert(self.levels_ok());
        assert(self.reasons_ok());
        assert(self.roots_ok());
        assert(self.queue_ok());
        assert(self.heuristic_ok());
    }

    /// Adds an input clause: an empty one makes the formula trivially
    /// unsatisfiable, and a unit clause assigns its literal at once.
    fn add_clause(&mut self, literals: Vec<i64>)
        requires
            old(self).wf(),
            !old(self).trivially_unsat ==> old(self).trail_lim@.len() == 0,
            !old(self).trivially_unsat ==> old(self).clauses@.len() == old(self).formula@.len(),
            !old(self).trivially_unsat ==> old(self).bcp_queue@ == old(self).trail@,
            forall|i: int| 0 <= i < literals@.len() ==> Literal(#[trigger] literals@[i]).wf(),
        ensures
            final(self).wf(),
            !final(self).trivially_unsat ==> final(self).trail_lim@.len() == 0,
            !final(self).trivially_unsat ==> final(self).clauses@.len() == final(self).formula@.len(),
            !final(self).trivially_unsat ==> final(self).bcp_queue@ == final(self).trail@,
            final(self).formula@ == old(self).formula@.push(clause_of(literals@)),
            old(self).trivially_unsat ==> final(self).trivially_unsat,
            literals@.len() == 0 ==> final(self).trivially_unsat,
            !final(self).trivially_unsat ==> final(self).vars@ == old(self).vars@.union(lits_vars(clause_of(literals@))),
            !final(self).trivially_unsat ==> forall|v: nat| #[trigger] old(self).model().contains_key(v)
                ==> final(self).model().contains_key(v) && final(self).model()[v] == old(self).model()[v],
            !old(self).trivially_unsat && literals@.len() > 0 ==> {
                let c = final(self).clauses@.last()@;
                &&& final(self).clauses@.len() == old(self).clauses@.len() + 1
                &&& same_lits(c, clause_of(literals@))
                &&& c.len() >= 2 ==> !final(self).trivially_unsat && final(self).trail@ == old(self).trail@
                    && final(self).model() == old(self).model()
                &&& c.len() == 1 ==> final(self).trivially_unsat == lit_false(c[0], old(self).model())
                &&& c.len() == 1 && !final(self).trivially_unsat ==> lit_true(c[0], final(self).model())
                &&& c.len() == 1 && !final(self).trivially_unsat ==> (final(self).trail@ == old(self).trail@
                    || final(self).trail@ == old(self).trail@.push(c[0]))
            },
    {
        let ghost x = clause_of(literals@);
        if self.trivially_unsat {
            proof {
                lemma_unsat_push(self.formula@, x);
            }
            self.formula = Ghost(self.formula@.push(x));
            return;
        }
        if literals.len() == 0 {
            self.trivially_unsat = true;
            self.formula = Ghost(self.formula@.push(x));
            proof {
                assert(self.formula@.last().len() == 0);
                lemma_empty_clause_unsat(self.formula@, self.formula@.len() - 1);
            }
            return;
        }
        let ghost old_self = *self;
        let ghost ints = literals@;
        let clause = Clause::new(literals);
        let ghost c = clause@;
        proof {
            assert forall|l: Literal| c.contains(l) <==> x.contains(l) by {
                if c.contains(l) {
                    let i = choose|i: int| 0 <= i < ints.len() && ints[i] == l.0;
                    assert(x[i] == l);
                }
                if x.contains(l) {
                    let i = choose|i: int| 0 <= i < x.len() && x[i] == l;
                    assert(ints.contains(l.0));
                }
            }
            assert forall|i: int| 0 <= i < c.len() implies (#[trigger] c[i]).wf() by {
                assert(c.contains(c[i]));
                let z = choose|z: int| 0 <= z < ints.len() && ints[z] == c[i].0;
            }
            assert(lits_distinct(c)) by {
                assert forall|i: int, j: int| 0 <= i < j < c.len() implies c[i] != c[j] by {
                    assert(c[i].0 < c[j].0);
                }
            }
            assert(c.len() >= 1) by {
                assert(x.contains(x[0]));
            }
            crate::decision_provider::lemma_occur_all_dom(self.decision_provider@, c);
        }
        self.decision_provider.new_clause(clause.literals());
        let ghost new_vars = self.vars@.union(Set::new(|v: nat| exists|i: int| 0 <= i < c.len() && (#[trigger] c[i]).spec_var() == v));
        proof {
            assert(Set::new(|v: nat| exists|i: int| 0 <= i < c.len() && (#[trigger] c[i]).spec_var() == v).finite()) by {
                let vs = c.map_values(|l: Literal| l.spec_var());
                assert(Set::new(|v: nat| exists|i: int| 0 <= i < c.len() && (#[trigger] c[i]).spec_var() == v) =~= vs.to_set()) by {
                    assert forall|v: nat| vs.to_set().contains(v) implies exists|i: int| 0 <= i < c.len() && (#[trigger] c[i]).spec_var() == v by {
                        assert(vs.contains(v));
                        let i = choose|i: int| 0 <= i < vs.len() && vs[i] == v;
                    }
                    assert forall|v: nat| (exists|i: int| 0 <= i < c.len() && (#[trigger] c[i]).spec_var() == v) implies vs.to_set().contains(v) by {
                        let i = choose|i: int| 0 <= i < c.len() && (#[trigger] c[i]).spec_var() == v;
                        assert(vs[i] == v);
                    }
                }
            }
        }
        self.vars = Ghost(new_vars);
        self.formula = Ghost(self.formula@.push(x));
        let (wl1, wl2) = clause.watched_literals();
        let k = self.clauses.len();
        self.clauses.push(clause);
        let ghost pre_watch = *self;
        proof {
            assert(wl1.wf() && wl2.wf());
            assert(self.clauses@.last() == clause);
            assert forall|k2: nat, i: int|
                list_entries(self.watches).contains_key(k2) && 0 <= i < list_entries(self.watches)[k2].len()
                    implies #[trigger] list_entries(self.watches)[k2][i] < self.clauses@.len() by {
                assert(list_entries(old_self.watches)[k2][i] < old_self.clauses@.len());
            }
        }
        self.add_watch(wl1.index(), k);
        let ghost watched_once = *self;
        if wl1 != wl2 {
            self.add_watch(wl2.index(), k);
        }
        proof {
            assert forall|x: nat, j: usize| list_entries(pre_watch.watches).contains_key(x)
                && #[trigger] list_entries(pre_watch.watches)[x].contains(j) implies list_entries(self.watches).contains_key(x)
                && list_entries(self.watches)[x].contains(j) by {
                assert(list_entries(watched_once.watches).contains_key(x) && list_entries(watched_once.watches)[x].contains(j));
            }
            assert(list_entries(self.watches).contains_key(wl1.spec_index()) && list_entries(self.watches)[wl1.spec_index()].contains(k)) by {
                assert(list_entries(watched_once.watches)[wl1.spec_index()].contains(k));
            }
            assert(self.clauses@[k as int] == clause);
            self.lemma_listed_after_push(old_self, pre_watch);
            let d = self.decision_provider@;
            assert forall|v: nat| #[trigger] self.vars@.contains(v) implies v < usize::MAX && d.contains_key(v as usize) by {
                if !old_self.vars@.contains(v) {
                    let i = choose|i: int| 0 <= i < c.len() && (#[trigger] c[i]).spec_var() == v;
                    assert(c[i].wf());
                }
            }
            assert forall|v: usize| #[trigger] d.contains_key(v) implies self.vars@.contains(v as nat) by {
                if !old_self.decision_provider@.contains_key(v) {
                    let i = choose|i: int| 0 <= i < c.len() && (#[trigger] c[i]).spec_var() as usize == v;
                    assert(c[i].wf());
                }
            }
            assert forall|i: int| 0 <= i < c.len() implies self.vars@.contains((#[trigger] c[i]).spec_var()) by {}
            assert(same_lits(self.clauses@.last()@, x));
            self.lemma_input_pushed(old_self, x);
        }
        if wl1 == wl2 {
            proof {
                assert(c.len() == 1);
                assert(c.contains(wl1));
                assert forall|l: Literal| #[trigger] self.clauses@[k as int]@.contains(l) && l != wl1 implies lit_false(l, self.model()) by {
                    let z = choose|z: int| 0 <= z < c.len() && c[z] == l;
                }
                assert(self.vars@.contains(wl1.spec_var())) by {
                    assert(c[0] == wl1);
                }
            }
            if self.assign(wl1, Some(k)).is_err() {
                proof {
                    self.lemma_false_on_trail(wl1);
                    let p = self.lit_pos(wl1);
                    assert(entails_lit(self.formula@, self.trail@[p]));
                    assert(self.clause_ok(c));
                    assert forall|l: Literal| c.contains(l) implies entails_lit(self.formula@, #[trigger] l.spec_neg()) by {
                        let z = choose|z: int| 0 <= z < c.len() && c[z] == l;
                    }
                    assert forall|l: Literal| c.contains(l) implies #[trigger] l.wf() by {
                        let z = choose|z: int| 0 <= z < c.len() && c[z] == l;
                    }
                    lemma_refuted_clause(self.formula@, c);
                }
                self.trivially_unsat = true;
            }
        }
        proof {
            assert(lits_vars(c) =~= lits_vars(x)) by {
                assert forall|v: nat| lits_vars(c).contains(v) implies lits_vars(x).contains(v) by {
                    let i = choose|i: int| 0 <= i < c.len() && (#[trigger] c[i]).spec_var() == v;
                    assert(c.contains(c[i]));
                    let z = choose|z: int| 0 <= z < x.len() && x[z] == c[i];
                    assert(x[z].spec_var() == v);
                }
                assert forall|v: nat| lits_vars(x).contains(v) implies lits_vars(c).contains(v) by {
                    let i = choose|i: int| 0 <= i < x.len() && (#[trigger] x[i]).spec_var() == v;
                    assert(x.contains(x[i]));
                    let z = choose|z: int| 0 <= z < c.len() && c[z] == x[i];
                    assert(c[z].spec_var() == v);
                }
            }
            assert(new_vars =~= old_self.vars@.union(lits_vars(x)));
            assert(self.clauses@.last()@ == c);
            if !self.trivially_unsat {
                assert(old_self.units_assigned());
                assert(old_self.trail@.len() <= self.trail@.len());
                self.lemma_units_init(old_self);
            }
        }
    }

    proof fn lemma_units_init(&self, old_self: Solver)
        requires
            old_self.inv(),
            old_self.units_assigned(),
            self.inv(),
            old_self.trail_lim@.len() == 0,
            self.trail_lim@.len() == 0,
            old_self.trail@.len() <= self.trail@.len(),
            forall|i: int| 0 <= i < old_self.trail@.len() ==> #[trigger] self.trail@[i] == old_self.trail@[i],
            self.clauses@.len() == old_self.clauses@.len() + 1,
            forall|k: int| 0 <= k < old_self.clauses@.len() ==> #[trigger] self.clauses@[k] == old_self.clauses@[k],
            self.clauses@.last()@.len() == 1 ==> self.model().contains_key(self.clauses@.last()@[0].spec_var()),
        ensures
            self.units_assigned(),
    {
        assert forall|k: int| #![trigger self.clauses@[k]]
            0 <= k < self.clauses@.len() && self.clauses@[k]@.len() == 1 implies exists|i: int|
                0 <= i < self.trail@.len() && (self.trail_lim@.len() == 0 || i < self.trail_lim@[0])
                    && #[trigger] self.trail@[i].spec_var() == self.clauses@[k]@[0].spec_var() by {
            if k < old_self.clauses@.len() {
                assert(old_self.clauses@[k] == self.clauses@[k]);
                let i = choose|i: int| 0 <= i < old_self.trail@.len() && (old_self.trail_lim@.len() == 0 || i < old_self.trail_lim@[0])
                    && #[trigger] old_self.trail@[i].spec_var() == old_self.clauses@[k]@[0].spec_var();
                assert(self.trail@[i] == old_self.trail@[i]);
            } else {
                let v = self.clauses@[k]@[0].spec_var();
                assert(self.model().contains_key(v));
                let i = choose|i: int| 0 <= i < self.trail@.len() && (#[trigger] self.trail@[i]).spec_var() == v;
            }
        }
    }

    /// A solver for the formula, with its clauses installed and its unit
    /// clauses assigned.
    pub fn from_dimacs(dimacs: &Dimacs) -> (r: Solver)
        requires
            dimacs.wf(),
        ensures
            r.wf(),
            r.formula() == dimacs.formula(),
            (exists|j: int| 0 <= j < dimacs.clauses@.len() && dimacs.clauses@[j]@.len() == 0) ==> r.is_trivially_unsat(),
            !r.is_trivially_unsat() ==> r.limits().len() == 0 && r.queue() == r.trail_seq() && r.model_of_trail(),
            !r.is_trivially_unsat() ==> r.vars() == formula_vars(dimacs.formula()),
            !r.is_trivially_unsat() ==> forall|j: int, l: Literal|
                0 <= j < dimacs.formula().len() && #[trigger] dimacs.formula()[j].contains(l)
                    && (forall|l2: Literal| #[trigger] dimacs.formula()[j].contains(l2) ==> l2 == l)
                    ==> lit_true(l, r.model()),
    {
        let mut solver = Solver::new();
        let mut j: usize = 0;
        proof {
            assert(solver.formula@ =~= dimacs.formula().subrange(0, 0));
            assert(formula_vars(dimacs.formula().subrange(0, 0)) =~= Set::<nat>::empty());
        }
        while j < dimacs.clauses.len()
            invariant
                j <= dimacs.clauses@.len(),
                dimacs.wf(),
                solver.wf(),
                !solver.trivially_unsat ==> solver.trail_lim@.len() == 0,
                !solver.trivially_unsat ==> solver.clauses@.len() == solver.formula@.len(),
                solver.formula@ == dimacs.formula().subrange(0, j as int),
                !solver.trivially_unsat ==> solver.bcp_queue@ == solver.trail@,
                (exists|q: int| 0 <= q < j && dimacs.clauses@[q]@.len() == 0) ==> solver.trivially_unsat,
                !solver.trivially_unsat ==> solver.vars@ == formula_vars(dimacs.formula().subrange(0, j as int)),
                !solver.trivially_unsat ==> forall|q: int, l: Literal|
                    0 <= q < j && #[trigger] dimacs.formula()[q].contains(l)
                        && (forall|l2: Literal| #[trigger] dimacs.formula()[q].contains(l2) ==> l2 == l)
                        ==> lit_true(l, solver.model()),
            decreases dimacs.clauses.len() - j,
        {
            let literals = dimacs.clauses[j].clone();
            proof {
                assert forall|i: int| 0 <= i < literals@.len() implies Literal(#[trigger] literals@[i]).wf() by {
                    assert(literals@[i] == dimacs.clauses@[j as int]@[i]);
                }
            }
            let ghost before = solver;
            solver.add_clause(literals);
            proof {
                assert(solver.formula@ =~= dimacs.formula().subrange(0, j + 1));
                let x = dimacs.formula()[j as int];
                assert(x == clause_of(literals@));
                if !solver.trivially_unsat {
                    Self::lemma_formula_vars_push(dimacs.formula(), j as int);
                    assert forall|q: int, l: Literal|
                        0 <= q < j + 1 && #[trigger] dimacs.formula()[q].contains(l)
                            && (forall|l2: Literal| #[trigger] dimacs.formula()[q].contains(l2) ==> l2 == l)
                            implies lit_true(l, solver.model()) by {
                        if q < j {
                            assert(lit_true(l, before.model()));
                        } else {
                            let c = solver.clauses@.last()@;
                            assert(c.contains(c[0]));
                            assert(x.contains(c[0]));
                            assert(c[0] == l);
                            if c.len() >= 2 {
                                assert(c.contains(c[1]));
                                assert(c[1] == l);
                                assert(lits_distinct(c)) by {
                                    assert(solver.clause_ok(c));
                                }
                            }
                        }
                    }
                }
                if dimacs.clauses@[j as int]@.len() == 0 {
                    assert(literals@.len() == 0);
                }
            }
            j = j + 1;
        }
        proof {
            assert(solver.formula@ =~= dimacs.formula());
            assert(dimacs.formula().subrange(0, dimacs.clauses@.len() as int) =~= dimacs.formula());
            if !solver.trivially_unsat {
                solver.lemma_model_of_trail();
            }
        }
        solver
    }
}

/// What the search does next, when no literal waits for propagation.
enum Next {
    /// Decide this unassigned literal.
    Decide(Literal),
    /// Every clause is satisfied.
    AllSatisfied,
    /// This clause is false.
    Falsified(usize),
}

impl Solver {
    /// Assigning one more literal makes the measure grow.
    proof fn lemma_progress_push(&self, old_self: Solver)
        requires
            old_self.inv(),
            self.inv(),
            self.vars == old_self.vars,
            self.trail@.len() == old_self.trail@.len() + 1,
            self.trail_lim@ == old_self.trail_lim@ || self.trail_lim@ == old_self.trail_lim@.push(
                old_self.trail@.len() as usize,
            ),
            old_self.trail@.len() <= usize::MAX,
        ensures
            self.progress() > old_self.progress(),
    {
        let n = old_self.trail@.len() as nat;
        let v = self.vars@.len();
        let lim = self.trail_lim@;
        self.lemma_trail_len();
        if self.trail_lim@ != old_self.trail_lim@ {
            crate::measure::lemma_progress_push_limit(old_self.trail_lim@, n as usize, n, v);
        }
        assert(progress(lim, n + 1, v) == progress(lim, n, v) + crate::measure::weight(v, level_at(lim, n as int)));
        crate::measure::lemma_level_le(lim, n as int);
        if lim.len() > 0 {
            crate::measure::lemma_limit_at_least(lim, lim.len() - 1);
        }
        vstd::arithmetic::power::lemma_pow_positive(v as int + 1, (v - level_at(lim, n as int)) as nat);
    }

    /// Chooses the next decision. Where the heuristic offers none, or one
    /// already assigned, the clauses are checked one by one: the first
    /// unsatisfied clause gives a decision on its first unassigned literal,
    /// or is reported false when it has none.
    fn next_decision(&self) -> (r: Next)
        requires
            self.inv(),
        ensures
            r matches Next::Decide(l) ==> l.wf() && self.vars@.contains(l.spec_var()) && !self.model().contains_key(
                l.spec_var(),
            ),
            r matches Next::AllSatisfied ==> forall|k: int| 0 <= k < self.clauses@.len() ==> #[trigger] clause_sat(
                self.clauses@[k]@,
                self.model(),
            ),
            r matches Next::Falsified(ci) ==> ci < self.clauses@.len() && clause_false(self.clauses@[ci as int]@, self.model()),
    {
        if let Some(lit) = self.decision_provider.get_next() {
            if bool_map_get(&self.assigns, lit.var()).is_none() {
                proof {
                    let d = self.decision_provider@;
                    let v = choose|v: usize| {
                        &&& #[trigger] d.contains_key(v)
                        &&& d[v].0
                        &&& lit == crate::decision_provider::suggested(v, d[v])
                        &&& forall|u: usize| #[trigger] d.contains_key(u) ==> !crate::decision_provider::prio_lt(d[v], d[u])
                    };
                    assert(self.vars@.contains(v as nat));
                }
                return Next::Decide(lit);
            }
        }
        let m = self.clauses.len();
        let mut k: usize = 0;
        while k < m
            invariant
                self.inv(),
                m == self.clauses@.len(),
                k <= m,
                forall|q: int| 0 <= q < k ==> #[trigger] clause_sat(self.clauses@[q]@, self.model()),
            decreases m - k,
        {
            let lits = self.clauses[k].literals();
            let ghost c = self.clauses@[k as int]@;
            proof {
                assert(self.clause_ok(c));
            }
            let mut i: usize = 0;
            let mut open: Option<Literal> = None;
            while i < lits.len()
                invariant
                    self.inv(),
                    lits@ == c,
                    lits_wf(c),
                    forall|z: int| 0 <= z < c.len() ==> self.vars@.contains((#[trigger] c[z]).spec_var()),
                    i <= c.len(),
                    forall|z: int| 0 <= z < i ==> !lit_true(#[trigger] c[z], self.model()),
                    open.is_none() ==> forall|z: int| 0 <= z < i ==> lit_false(#[trigger] c[z], self.model()),
                    open.is_some() ==> open.unwrap().wf() && self.vars@.contains(open.unwrap().spec_var())
                        && !self.model().contains_key(open.unwrap().spec_var()),
                ensures
                    i <= c.len(),
                    i < c.len() ==> lit_true(c[i as int], self.model()),
                    i == c.len() ==> forall|z: int| 0 <= z < i ==> !lit_true(#[trigger] c[z], self.model()),
                    i == c.len() && open.is_none() ==> forall|z: int| 0 <= z < i ==> lit_false(#[trigger] c[z], self.model()),
                    open.is_some() ==> open.unwrap().wf() && self.vars@.contains(open.unwrap().spec_var())
                        && !self.model().contains_key(open.unwrap().spec_var()),
                decreases c.len() - i,
            {
                let l = lits[i];
                match bool_map_get(&self.assigns, l.var()) {
                    Some(val) => {
                        if val == l.sign() {
                            break;
                        }
                    },
                    None => {
                        if open.is_none() {
                            open = Some(l);
                        }
                    },
                }
                i = i + 1;
            }
            if i < lits.len() {
                proof {
                    assert(lit_true(c[i as int], self.model()));
                }
                k = k + 1;
            } else {
                match open {
                    Some(u) => {
                        return Next::Decide(u);
                    },
                    None => {
                        return Next::Falsified(k);
                    },
                }
            }
        }
        Next::AllSatisfied
    }

    /// Whether more conflicts than the current limit were seen since the
    /// last restart, above level 0.
    fn should_restart(&self) -> (r: bool)
        ensures
            r == (self.conflicts > self.restart.2 && self.trail_lim@.len() > 0),
    {
        self.conflicts > self.restart.2 && self.trail_lim.len() > 0
    }

    /// Returns to level 0 and sets the next limit: the inner interval grows by
    /// a tenth until it reaches the outer one, which then grows by a tenth
    /// while the inner one starts again from 100.
    fn restart(&mut self)
        requires
            old(self).inv(),
            old(self).trail_lim@.len() > 0,
            old(self).bcp_queue@.len() == 0,
            old(self).watches_hold(),
            old(self).watch_listed(),
            old(self).units_assigned(),
        ensures
            final(self).inv(),
            final(self).units_assigned(),
            final(self).watches_hold(),
            final(self).watch_listed(),
            final(self).queue_current(),
            final(self).bcp_queue@.len() == 0,
            final(self).restart.2 >= final(self).conflicts,
            final(self).formula == old(self).formula,
            final(self).vars == old(self).vars,
            final(self).conflicts == old(self).conflicts,
            final(self).restart == (if old(self).restart.0 >= old(self).restart.1 {
                (100usize, old(self).restart.1.saturating_add(old(self).restart.1 / 10), final(self).restart.2)
            } else {
                (old(self).restart.0.saturating_add(old(self).restart.0 / 10), old(self).restart.1, final(self).restart.2)
            }),
            final(self).restart.2 == final(self).conflicts.saturating_add(final(self).restart.0),
            final(self).trail_lim@.len() == 0,
            final(self).trail@ == old(self).trail@.subrange(0, old(self).trail_lim@[0] as int),
    {
        if self.restart.0 >= self.restart.1 {
            self.restart.1 = self.restart.1.saturating_add(self.restart.1 / 10);
            self.restart.0 = 100;
        } else {
            self.restart.0 = self.restart.0.saturating_add(self.restart.0 / 10);
        }
        self.restart.2 = self.conflicts.saturating_add(self.restart.0);
        proof {
            assert(self.model() == old(self).model());
            assert(self.inv()) by {
                assert(self.trail_ok());
                assert(self.assigns_ok());
                assert(self.levels_ok());
                assert(self.reasons_ok());
                assert(self.clauses_ok());
                assert(self.roots_ok());
                assert(self.queue_ok());
                assert(self.heuristic_ok());
            }
            assert(self.watches_hold()) by {
                assert forall|k: int| #![trigger self.clauses@[k]] 0 <= k < self.clauses@.len() implies {
                    &&& self.watch_pair_ok(first_watch(self.clauses@[k]@), second_watch(self.clauses@[k]@))
                    &&& self.watch_pair_ok(second_watch(self.clauses@[k]@), first_watch(self.clauses@[k]@))
                } by {
                    assert(old(self).clauses@[k] == self.clauses@[k]);
                }
            }
            assert(self.watch_listed()) by {
                assert forall|k: int| #![trigger self.clauses@[k]] 0 <= k < self.clauses@.len() implies {
                    &&& list_entries(self.watches).contains_key(first_watch(self.clauses@[k]@).spec_index())
                    &&& list_entries(self.watches)[first_watch(self.clauses@[k]@).spec_index()].contains(k as usize)
                    &&& list_entries(self.watches).contains_key(second_watch(self.clauses@[k]@).spec_index())
                    &&& list_entries(self.watches)[second_watch(self.clauses@[k]@).spec_index()].contains(k as usize)
                } by {
                    assert(old(self).clauses@[k] == self.clauses@[k]);
                }
            }
            self.lemma_hold_to_below(self.trail_lim@.len());
        }
        self.pop_levels(0);
    }

    fn assign_decision(&mut self, literal: Literal) -> (r: Result<(), ()>)
        requires
            old(self).inv(),
            literal.wf(),
            old(self).vars@.contains(literal.spec_var()),
            !old(self).model().contains_key(literal.spec_var()),
            old(self).watches_hold(),
            old(self).watch_listed(),
            old(self).queue_current(),
            old(self).bcp_queue@.len() == 0,
            old(self).units_assigned(),
        ensures
            r.is_ok(),
            final(self).inv(),
            final(self).units_assigned(),
            final(self).watches_hold(),
            final(self).watch_listed(),
            final(self).queue_current(),
            final(self).progress() > old(self).progress(),
            final(self).bcp_queue@ == old(self).bcp_queue@.push(literal),
            final(self).formula == old(self).formula,
            final(self).vars == old(self).vars,
            final(self).restart == old(self).restart,
            final(self).conflicts == old(self).conflicts,
    {
        let ghost old_self = *self;
        // the length is a usize: the proof below needs that bound
        let _len = self.trail.len();
        let r = self.assign(literal, None);
        proof {
            self.lemma_progress_push(old_self);
        }
        r
    }

    /// Decides satisfiability: `Sat` exactly when some assignment satisfies
    /// every clause of the formula. On `Sat` the final assignment is one.
    pub fn solve(&mut self) -> (r: SolverResult)
        requires
            old(self).wf(),
        ensures
            final(self).formula() == old(self).formula(),
            (r == SolverResult::Sat) == satisfiable(old(self).formula()),
            r == SolverResult::Sat ==> formula_sat(final(self).formula(), final(self).model()),
            r == SolverResult::Sat ==> final(self).model_of_trail(),
            r == SolverResult::Sat ==> forall|k: int|
                0 <= k < final(self).clause_list().len() ==> !#[trigger] final(self).watches_false(k),
    {
        if self.trivially_unsat {
            return SolverResult::Unsat;
        }
        // start from level 0 with every assigned literal queued
        self.bcp_queue.clear();
        proof {
            self.lemma_queue_changed(*old(self));
        }
        if self.trail_lim.len() > 0 {
            self.pop_levels(0);
        }
        let mut i: usize = 0;
        while i < self.trail.len()
            invariant
                self.inv(),
                self.watch_listed(),
                self.units_assigned(),
                self.trail_lim@.len() == 0,
                i <= self.trail@.len(),
                self.bcp_queue@ == self.trail@.subrange(0, i as int),
                self.formula@ == old(self).formula@,
            decreases self.trail@.len() - i,
        {
            let l = self.trail[i];
            let ghost pre = *self;
            self.bcp_queue.push_back(l);
            proof {
                assert(self.trail@.subrange(0, i + 1) =~= self.trail@.subrange(0, i as int).push(l));
                self.lemma_queue_changed(pre);
            }
            i = i + 1;
        }
        proof {
            assert(self.bcp_queue@ =~= self.trail@);
            self.lemma_all_queued();
        }
        let ghost f = self.formula@;
        let ghost bound = vstd::arithmetic::power::pow(self.vars@.len() as int + 1, self.vars@.len() + 1);
        proof {
            self.lemma_trail_len();
            crate::measure::lemma_progress_bound(self.trail_lim@, self.trail@.len() as nat, self.vars@.len());
        }
        loop
            invariant
                self.inv(),
                self.formula@ == f,
                f == old(self).formula@,
                bound == vstd::arithmetic::power::pow(self.vars@.len() as int + 1, self.vars@.len() + 1),
                self.progress() < bound,
                self.watches_hold(),
                self.watch_listed(),
                self.queue_current(),
                self.units_assigned(),
            ensures
                self.inv(),
                self.units_assigned(),
                self.watches_hold(),
                self.watch_listed(),
                self.formula@ == f,
                f == old(self).formula@,
                bound == vstd::arithmetic::power::pow(self.vars@.len() as int + 1, self.vars@.len() + 1),
                self.bcp_queue@.len() == 0,
            decreases bound - self.progress(),
        {
            let ghost before = *self;
            let conflict = self.unit_propagate();
            proof {
                crate::measure::lemma_progress_grows(before.trail_lim@, before.trail@.len() as nat, self.trail@.len() as nat, self.vars@.len());
                self.lemma_trail_len();
                crate::measure::lemma_progress_bound(self.trail_lim@, self.trail@.len() as nat, self.vars@.len());
            }
            match conflict {
                None => {
                    break;
                },
                Some(ci) => {
                    if !self.handle_conflict(ci) {
                        return SolverResult::Unsat;
                    }
                    proof {
                        self.lemma_trail_len();
                        crate::measure::lemma_progress_bound(self.trail_lim@, self.trail@.len() as nat, self.vars@.len());
                    }
                },
            }
        }
        loop
            invariant
                self.inv(),
                self.formula@ == f,
                f == old(self).formula@,
                self.bcp_queue@.len() == 0,
                self.watches_hold(),
                self.watch_listed(),
                self.units_assigned(),
                bound == vstd::arithmetic::power::pow(self.vars@.len() as int + 1, self.vars@.len() + 1),
            decreases usize::MAX - self.restart.2, bound - self.progress(),
        {
            proof {
                self.lemma_trail_len();
                crate::measure::lemma_progress_bound(self.trail_lim@, self.trail@.len() as nat, self.vars@.len());
            }
            let ghost iter_start = *self;
            let ghost p0 = self.progress();
            let ghost limit0 = self.restart.2;
            if self.should_restart() {
                self.restart();
                proof {
                    assert(self.restart.2 > limit0);
                }
                continue;
            }
            {
                match self.next_decision() {
                    Next::Decide(lit) => {
                        let _ = self.assign_decision(lit);
                    },
                    Next::AllSatisfied => {
                        proof {
                            let m = self.model();
                            assert forall|j: int| 0 <= j < f.len() implies #[trigger] clause_sat(f[j], m) by {
                                assert(clause_sat(self.clauses@[j]@, m));
                                Self::lemma_same_lits_sat(self.clauses@[j]@, f[j], m);
                            }
                            assert(formula_sat(f, m));
                            assert(satisfiable(f));
                            self.lemma_no_false_watches();
                            self.lemma_model_of_trail();
                        }
                        return SolverResult::Sat;
                    },
                    Next::Falsified(ci) => {
                        proof {
                            self.lemma_hold_to_below(self.trail_lim@.len());
                        }
                        if !self.handle_conflict(ci) {
                            return SolverResult::Unsat;
                        }
                    },
                }
            }
            loop
                invariant
                    self.inv(),
                    self.formula@ == f,
                    f == old(self).formula@,
                    self.vars == iter_start.vars,
                    self.restart.2 == limit0,
                    self.progress() > p0,
                    bound == vstd::arithmetic::power::pow(self.vars@.len() as int + 1, self.vars@.len() + 1),
                    self.watches_hold(),
                    self.watch_listed(),
                    self.queue_current(),
                    self.units_assigned(),
                ensures
                    self.units_assigned(),
                    self.watches_hold(),
                    self.watch_listed(),
                    self.inv(),
                    self.formula@ == f,
                    f == old(self).formula@,
                    self.vars == iter_start.vars,
                    self.restart.2 == limit0,
                    self.progress() > p0,
                    self.bcp_queue@.len() == 0,
                    bound == vstd::arithmetic::power::pow(self.vars@.len() as int + 1, self.vars@.len() + 1),
                decreases bound - self.progress(),
            {
                let ghost before = *self;
                let conflict = self.unit_propagate();
                proof {
                    crate::measure::lemma_progress_grows(before.trail_lim@, before.trail@.len() as nat, self.trail@.len() as nat, self.vars@.len());
                    self.lemma_trail_len();
                    crate::measure::lemma_progress_bound(self.trail_lim@, self.trail@.len() as nat, self.vars@.len());
                }
                match conflict {
                    None => {
                        break;
                    },
                    Some(ci) => {
                        let ghost ap = *self;
                        self.conflicts = self.conflicts.saturating_add(1);
                        proof {
                            self.lemma_counter_changed(ap);
                            assert(self.model() == ap.model());
                            assert(self.inv()) by {
                                assert(self.trail_ok());
                                assert(self.assigns_ok());
                                assert(self.levels_ok());
                                assert(self.reasons_ok());
                                assert(self.clauses_ok());
                                assert(self.roots_ok());
                                assert(self.queue_ok());
                                assert(self.heuristic_ok());
                            }
                        }
                        if !self.handle_conflict(ci) {
                            return SolverResult::Unsat;
                        }
                        proof {
                            self.lemma_trail_len();
                            crate::measure::lemma_progress_bound(self.trail_lim@, self.trail@.len() as nat, self.vars@.len());
                        }
                    },
                }
            }
            proof {
                self.lemma_trail_len();
                crate::measure::lemma_progress_bound(self.trail_lim@, self.trail@.len() as nat, self.vars@.len());
            }
        }
    }
}

impl Solver {
    /// The value of the variable in the current assignment, if it has one.
    pub fn value(&self, var: usize) -> (r: Option<bool>)
        ensures
            r == (if self.model().contains_key(var as nat) {
                Some(self.model()[var as nat])
            } else {
                None
            }),
    {
        bool_map_get(&self.assigns, var)
    }

    /// The decision level the variable was assigned at, if it is assigned:
    /// never above the current level.
    pub fn level(&self, var: usize) -> (r: Option<usize>)
        requires
            self.wf(),
        ensures
            r.is_some() ==> self.model().contains_key(var as nat) && r.unwrap() <= self.current_level(),
            r.is_some() ==> exists|i: int|
                0 <= i < self.trail_seq().len() && (#[trigger] self.trail_seq()[i]).spec_var() == var as nat
                    && r.unwrap() == level_at(self.limits(), i),
            !self.is_trivially_unsat() ==> (r.is_some() <==> self.model().contains_key(var as nat)),
    {
        if self.trivially_unsat {
            return None;
        }
        match bool_map_get(&self.assigns, var) {
            None => None,
            Some(_) => {
                proof {
                    let m = self.model();
                    let i = choose|i: int| 0 <= i < self.trail@.len() && (#[trigger] self.trail@[i]).spec_var() == var as nat;
                    assert(self.levels_ok());
                    crate::measure::lemma_level_le(self.trail_lim@, i);
                    assert(self.trail_seq()[i].spec_var() == var as nat);
                    assert(usize_entries(self.level)[var as nat] == level_at(self.limits(), i));
                }
                usize_map_get(&self.level, var)
            },
        }
    }

    /// The assigned literals, in the order they were assigned.
    pub fn trail(&self) -> (r: &Vec<Literal>)
        ensures
            r@ == self.trail_seq(),
    {
        &self.trail
    }

    /// The trail positions where the decision levels begin.
    pub fn trail_lim(&self) -> (r: &Vec<usize>)
        ensures
            r@ == self.limits(),
    {
        &self.trail_lim
    }
}

impl Solver {
    /// Assigns the literal as a new decision level. Fails where the solver
    /// found the formula trivially unsatisfiable, where the literal names no
    /// variable of the formula, or where it is false; does nothing where it
    /// is true.
    pub fn store_decision(&mut self, literal: Literal) -> (r: Result<(), ()>)
        requires
            old(self).wf(),
        ensures
            final(self).wf(),
            final(self).formula() == old(self).formula(),
            r.is_ok() <==> !old(self).is_trivially_unsat() && literal.wf() && old(self).vars().contains(literal.spec_var())
                && !lit_false(literal, old(self).model()),
            r.is_ok() && !old(self).model().contains_key(literal.spec_var()) ==> {
                &&& final(self).trail_seq() == old(self).trail_seq().push(literal)
                &&& final(self).limits() == old(self).limits().push(old(self).trail_seq().len() as usize)
            },
            r.is_err() || old(self).model().contains_key(literal.spec_var()) ==> *final(self) == *old(self),
    {
        if self.trivially_unsat || !literal.is_valid() {
            return Err(());
        }
        if !self.decision_provider.contains(literal.var()) {
            return Err(());
        }
        self.store_assignment(literal, None)
    }

    /// Assigns the literal with clause `clause` of the arena as its reason.
    /// Fails where the solver found the formula trivially unsatisfiable,
    /// where the clause does not force the literal (it must hold the literal,
    /// with all its other literals false), or where the literal is false.
    pub fn store_consequence(&mut self, literal: Literal, clause: usize) -> (r: Result<(), ()>)
        requires
            old(self).wf(),
        ensures
            final(self).wf(),
            final(self).formula() == old(self).formula(),
            r.is_ok() <==> !old(self).is_trivially_unsat() && literal.wf() && clause < old(self).clause_list().len()
                && old(self).clause_list()[clause as int].contains(literal) && (forall|l: Literal| #[trigger]
                old(self).clause_list()[clause as int].contains(l) && l != literal ==> lit_false(l, old(self).model()))
                && !lit_false(literal, old(self).model()),
            r.is_ok() && !old(self).model().contains_key(literal.spec_var()) ==> {
                &&& final(self).trail_seq() == old(self).trail_seq().push(literal)
                &&& final(self).limits() == old(self).limits()
            },
            r.is_err() || old(self).model().contains_key(literal.spec_var()) ==> *final(self) == *old(self),
    {
        if self.trivially_unsat || !literal.is_valid() || clause >= self.clauses.len() {
            return Err(());
        }
        let lits = self.clauses[clause].literals();
        let ghost c = self.clauses@[clause as int]@;
        proof {
            assert(self.clause_list()[clause as int] == c);
            assert(self.clause_ok(c));
        }
        let mut holds = false;
        let mut i: usize = 0;
        while i < lits.len()
            invariant
                self.inv(),
                lits@ == c,
                lits_wf(c),
                i <= c.len(),
                holds == (exists|z: int| 0 <= z < i && c[z] == literal),
                forall|z: int| 0 <= z < i && c[z] != literal ==> lit_false(#[trigger] c[z], self.model()),
            ensures
                i < c.len() ==> !lit_false(c[i as int], self.model()) && c[i as int] != literal,
                i == c.len() ==> holds == c.contains(literal),
                i == c.len() ==> forall|z: int| 0 <= z < i && c[z] != literal ==> lit_false(#[trigger] c[z], self.model()),
            decreases c.len() - i,
        {
            let l = lits[i];
            if l == literal {
                holds = true;
            } else {
                match bool_map_get(&self.assigns, l.var()) {
                    Some(val) => {
                        if val == l.sign() {
                            break;
                        }
                    },
                    None => {
                        break;
                    },
                }
            }
            i = i + 1;
        }
        if i < lits.len() {
            proof {
                assert(c.contains(c[i as int]));
            }
            return Err(());
        }
        if !holds {
            return Err(());
        }
        proof {
            assert forall|l: Literal| #[trigger] c.contains(l) && l != literal implies lit_false(l, self.model()) by {
                let z = choose|z: int| 0 <= z < c.len() && c[z] == l;
            }
            assert(self.vars@.contains(literal.spec_var())) by {
                let z = choose|z: int| 0 <= z < c.len() && c[z] == literal;
            }
        }
        self.store_assignment(literal, Some(clause))
    }
}

/// The first watched literal of a clause.
pub open spec fn first_watch(c: Seq<Literal>) -> Literal {
    c[0]
}

/// The second watched literal of a clause; a clause of one literal watches
/// it twice.
pub open spec fn second_watch(c: Seq<Literal>) -> Literal {
    if c.len() == 1 { c[0] } else { c[1] }
}

impl Solver {
    /// Both watched literals of the clause are false.
    pub closed spec fn watches_false(&self, k: int) -> bool {
        let c = self.clauses@[k]@;
        lit_false(first_watch(c), self.model()) && lit_false(second_watch(c), self.model())
    }

    /// Every clause sits on the watch lists of its two watched literals.
    spec fn watch_listed(&self) -> bool {
        let w = list_entries(self.watches);
        forall|k: int| #![trigger self.clauses@[k]] 0 <= k < self.clauses@.len() ==> {
            &&& w.contains_key(first_watch(self.clauses@[k]@).spec_index())
            &&& w[first_watch(self.clauses@[k]@).spec_index()].contains(k as usize)
            &&& w.contains_key(second_watch(self.clauses@[k]@).spec_index())
            &&& w[second_watch(self.clauses@[k]@).spec_index()].contains(k as usize)
        }
    }

    /// A false watched literal `w` whose negation is no longer queued has a
    /// true partner `o` assigned no later than `w` became false.
    spec fn watch_pair_ok(&self, w: Literal, o: Literal) -> bool {
        lit_false(w, self.model()) && !self.bcp_queue@.contains(w.spec_neg()) ==> lit_true(o, self.model())
            && self.lit_level(o) <= self.lit_level(w)
    }

    /// The watched-literal discipline, for every clause.
    spec fn watches_hold(&self) -> bool {
        forall|k: int| #![trigger self.clauses@[k]] 0 <= k < self.clauses@.len() ==> {
            &&& self.watch_pair_ok(first_watch(self.clauses@[k]@), second_watch(self.clauses@[k]@))
            &&& self.watch_pair_ok(second_watch(self.clauses@[k]@), first_watch(self.clauses@[k]@))
        }
    }

    /// The queued literals are all on the current decision level.
    spec fn queue_current(&self) -> bool {
        forall|k: int| 0 <= k < self.bcp_queue@.len() ==> self.on_trail_between(
            #[trigger] self.bcp_queue@[k],
            self.segment_start(),
            self.trail@.len() as int,
        )
    }

    /// The watched-literal discipline for the watched literals that became
    /// false below level `d`.
    spec fn watches_hold_below(&self, d: nat) -> bool {
        forall|k: int| #![trigger self.clauses@[k]] 0 <= k < self.clauses@.len() ==> {
            &&& (lit_false(first_watch(self.clauses@[k]@), self.model()) && self.lit_level(first_watch(self.clauses@[k]@)) < d
                ==> lit_true(second_watch(self.clauses@[k]@), self.model())
                    && self.lit_level(second_watch(self.clauses@[k]@)) <= self.lit_level(first_watch(self.clauses@[k]@)))
            &&& (lit_false(second_watch(self.clauses@[k]@), self.model()) && self.lit_level(second_watch(self.clauses@[k]@)) < d
                ==> lit_true(first_watch(self.clauses@[k]@), self.model())
                    && self.lit_level(first_watch(self.clauses@[k]@)) <= self.lit_level(second_watch(self.clauses@[k]@)))
        }
    }

    /// An assigned variable keeps its trail position and level when the
    /// trail grows without changing the levels of its positions.
    proof fn lemma_assigned_stable(&self, old_self: Solver, l: Literal)
        requires
            old_self.inv(),
            self.inv(),
            old_self.trail@.len() <= self.trail@.len(),
            forall|i: int| 0 <= i < old_self.trail@.len() ==> #[trigger] self.trail@[i] == old_self.trail@[i],
            forall|i: int| 0 <= i < old_self.trail@.len() ==> #[trigger] level_at(self.trail_lim@, i) == level_at(old_self.trail_lim@, i),
            l.wf(),
            old_self.model().contains_key(l.spec_var()),
        ensures
            self.lit_pos(l) == old_self.lit_pos(l),
            self.lit_level(l) == old_self.lit_level(l),
            self.model().contains_key(l.spec_var()),
            self.model()[l.spec_var()] == old_self.model()[l.spec_var()],
    {
        let ot = old_self.trail@;
        let t = self.trail@;
        let i = choose|i: int| 0 <= i < ot.len() && (#[trigger] ot[i]).spec_var() == l.spec_var();
        let p = old_self.lit_pos(l);
        assert(ot[p].spec_var() == l.spec_var());
        assert(p == i) by {
            if p < i {
                assert(ot[p].spec_var() != ot[i].spec_var());
            } else if p > i {
                assert(ot[i].spec_var() != ot[p].spec_var());
            }
        }
        assert(t[p] == ot[p]);
        let q = self.lit_pos(l);
        assert(t[q].spec_var() == l.spec_var());
        assert(q == p) by {
            if q < p {
                assert(t[q].spec_var() != t[p].spec_var());
            } else if q > p {
                assert(t[p].spec_var() != t[q].spec_var());
            }
        }
        assert(lit_true(ot[p], old_self.model()));
        assert(lit_true(t[p], self.model()));
    }
}

impl Solver {
    /// After a backjump from a state that kept the discipline below its
    /// level, with nothing queued, the discipline holds in full.
    proof fn lemma_watches_after_pop(&self, old_self: Solver, b: nat)
        requires
            old_self.inv(),
            self.inv(),
            b < old_self.trail_lim@.len(),
            self.trail@ == old_self.trail@.subrange(0, old_self.trail_lim@[b as int] as int),
            self.trail_lim@ == old_self.trail_lim@.subrange(0, b as int),
            self.clauses == old_self.clauses,
            self.bcp_queue@.len() == 0,
            old_self.watches_hold_below(old_self.trail_lim@.len()),
        ensures
            self.watches_hold(),
    {
        assert forall|k: int| #![trigger self.clauses@[k]] 0 <= k < self.clauses@.len() implies {
            &&& self.watch_pair_ok(first_watch(self.clauses@[k]@), second_watch(self.clauses@[k]@))
            &&& self.watch_pair_ok(second_watch(self.clauses@[k]@), first_watch(self.clauses@[k]@))
        } by {
            let c = self.clauses@[k]@;
            assert(old_self.clauses@[k] == self.clauses@[k]);
            assert(old_self.clause_ok(c));
            let a = first_watch(c);
            let o = second_watch(c);
            assert(a.wf() && o.wf());
            self.lemma_pair_after_pop(old_self, b, a, o);
            self.lemma_pair_after_pop(old_self, b, o, a);
        }
    }

    proof fn lemma_pair_after_pop(&self, old_self: Solver, b: nat, w: Literal, o: Literal)
        requires
            old_self.inv(),
            self.inv(),
            b < old_self.trail_lim@.len(),
            self.trail@ == old_self.trail@.subrange(0, old_self.trail_lim@[b as int] as int),
            self.trail_lim@ == old_self.trail_lim@.subrange(0, b as int),
            self.bcp_queue@.len() == 0,
            w.wf(),
            o.wf(),
            lit_false(w, old_self.model()) && old_self.lit_level(w) < old_self.trail_lim@.len()
                ==> lit_true(o, old_self.model()) && old_self.lit_level(o) <= old_self.lit_level(w),
        ensures
            self.watch_pair_ok(w, o),
    {
        let m = self.model();
        if lit_false(w, m) {
            let t = self.trail@;
            let ot = old_self.trail@;
            let i = choose|i: int| 0 <= i < t.len() && (#[trigger] t[i]).spec_var() == w.spec_var();
            assert(lit_true(t[i], m));
            assert(t[i] == ot[i]);
            assert(lit_true(ot[i], old_self.model()));
            assert(t[i].wf());
            assert(lit_false(w, old_self.model()));
            old_self.lemma_false_on_trail(w);
            let p = old_self.lit_pos(w);
            assert(p == i) by {
                if p < i {
                    assert(ot[p].spec_var() != ot[i].spec_var());
                } else if p > i {
                    assert(ot[i].spec_var() != ot[p].spec_var());
                }
            }
            crate::measure::lemma_level_above(old_self.trail_lim@, p, b);
            assert(old_self.lit_level(w) <= b);
            self.lemma_after_backjump(old_self, b, w);
            self.lemma_after_backjump(old_self, b, o);
        }
    }
}

/// Literals that name variables have distinct indices.
proof fn lemma_index_injective(a: Literal, b: Literal)
    requires
        a.wf(),
        b.wf(),
        a.spec_index() == b.spec_index(),
    ensures
        a == b,
{
}

impl Solver {
    /// Every clause sits on the watch lists of its watched literals, except
    /// that those watching the literal index `key` are listed in `extra`.
    spec fn listed_except(&self, key: nat, extra: Seq<usize>) -> bool {
        let w = list_entries(self.watches);
        forall|k: int| #![trigger self.clauses@[k]] 0 <= k < self.clauses@.len() ==> {
            &&& (first_watch(self.clauses@[k]@).spec_index() == key ==> extra.contains(k as usize))
            &&& (first_watch(self.clauses@[k]@).spec_index() != key ==> w.contains_key(first_watch(self.clauses@[k]@).spec_index())
                && w[first_watch(self.clauses@[k]@).spec_index()].contains(k as usize))
            &&& (second_watch(self.clauses@[k]@).spec_index() == key ==> extra.contains(k as usize))
            &&& (second_watch(self.clauses@[k]@).spec_index() != key ==> w.contains_key(second_watch(self.clauses@[k]@).spec_index())
                && w[second_watch(self.clauses@[k]@).spec_index()].contains(k as usize))
        }
    }

    /// The discipline holds for every watched pair, except for the pairs
    /// whose false literal is `neg` in clauses still `pending`.
    spec fn hold_except(&self, neg: Literal, pending: Seq<usize>) -> bool {
        forall|k: int| #![trigger self.clauses@[k]] 0 <= k < self.clauses@.len() ==> {
            &&& (self.watch_pair_ok(first_watch(self.clauses@[k]@), second_watch(self.clauses@[k]@))
                || (first_watch(self.clauses@[k]@) == neg && pending.contains(k as usize)))
            &&& (self.watch_pair_ok(second_watch(self.clauses@[k]@), first_watch(self.clauses@[k]@))
                || (second_watch(self.clauses@[k]@) == neg && pending.contains(k as usize)))
        }
    }

    /// With nothing queued, a state that keeps the discipline has no clause
    /// with both watched literals false.
    proof fn lemma_no_false_watches(&self)
        requires
            self.inv(),
            self.watches_hold(),
            self.bcp_queue@.len() == 0,
        ensures
            forall|k: int| 0 <= k < self.clauses@.len() ==> !#[trigger] self.watches_false(k),
    {
        assert forall|k: int| 0 <= k < self.clauses@.len() implies !#[trigger] self.watches_false(k) by {
            let c = self.clauses@[k]@;
            if self.watches_false(k) {
                assert(self.watch_pair_ok(first_watch(c), second_watch(c)));
                assert(!self.bcp_queue@.contains(first_watch(c).spec_neg()));
                assert(lit_true(second_watch(c), self.model()));
            }
        }
    }

    /// A state that keeps the discipline, with its queue on the current
    /// level, keeps it below the current level.
    proof fn lemma_hold_below(&self, neg: Literal, pending: Seq<usize>)
        requires
            self.inv(),
            self.hold_except(neg, pending),
            self.queue_current(),
            lit_false(neg, self.model()),
            neg.wf(),
            self.lit_level(neg) == self.trail_lim@.len(),
        ensures
            self.watches_hold_below(self.trail_lim@.len()),
    {
        let d = self.trail_lim@.len();
        assert forall|k: int| #![trigger self.clauses@[k]] 0 <= k < self.clauses@.len() implies {
            &&& (lit_false(first_watch(self.clauses@[k]@), self.model()) && self.lit_level(first_watch(self.clauses@[k]@)) < d
                ==> lit_true(second_watch(self.clauses@[k]@), self.model())
                    && self.lit_level(second_watch(self.clauses@[k]@)) <= self.lit_level(first_watch(self.clauses@[k]@)))
            &&& (lit_false(second_watch(self.clauses@[k]@), self.model()) && self.lit_level(second_watch(self.clauses@[k]@)) < d
                ==> lit_true(first_watch(self.clauses@[k]@), self.model())
                    && self.lit_level(first_watch(self.clauses@[k]@)) <= self.lit_level(second_watch(self.clauses@[k]@)))
        } by {
            let c = self.clauses@[k]@;
            assert(self.clause_ok(c));
            self.lemma_pair_below(first_watch(c), second_watch(c));
            self.lemma_pair_below(second_watch(c), first_watch(c));
        }
    }

    proof fn lemma_pair_below(&self, w: Literal, o: Literal)
        requires
            self.inv(),
            self.queue_current(),
            w.wf(),
            self.watch_pair_ok(w, o) || self.lit_level(w) == self.trail_lim@.len(),
        ensures
            lit_false(w, self.model()) && self.lit_level(w) < self.trail_lim@.len() ==> lit_true(o, self.model())
                && self.lit_level(o) <= self.lit_level(w),
    {
        if lit_false(w, self.model()) && self.lit_level(w) < self.trail_lim@.len() {
            if self.bcp_queue@.contains(w.spec_neg()) {
                let z = choose|z: int| 0 <= z < self.bcp_queue@.len() && self.bcp_queue@[z] == w.spec_neg();
                assert(self.on_trail_between(self.bcp_queue@[z], self.segment_start(), self.trail@.len() as int));
                let p = choose|p: int| self.segment_start() <= p < self.trail@.len() && #[trigger] self.trail@[p].spec_var() == w.spec_neg().spec_var();
                self.lemma_false_on_trail(w);
                let q = self.lit_pos(w);
                assert(q == p) by {
                    if q < p {
                        assert(self.trail@[q].spec_var() != self.trail@[p].spec_var());
                    } else if q > p {
                        assert(self.trail@[p].spec_var() != self.trail@[q].spec_var());
                    }
                }
                lemma_level_at(self.trail_lim@, p, self.trail_lim@.len());
            }
        }
    }
}

impl Solver {
    /// Right after the literal at the head of the queue is taken off it and
    /// the watch list of its negation is taken out, the discipline holds but
    /// for the clauses of that list, which sit in the list taken out.
    proof fn lemma_after_pop(&self, before: Solver, unit: Literal, snap: Seq<usize>)
        requires
            before.inv(),
            self.inv(),
            before.watches_hold(),
            before.watch_listed(),
            before.bcp_queue@.len() > 0,
            unit == before.bcp_queue@[0],
            unit.wf(),
            self.bcp_queue@ == before.bcp_queue@.drop_first(),
            self.model() == before.model(),
            self.trail == before.trail,
            self.trail_lim == before.trail_lim,
            self.clauses == before.clauses,
            list_entries(self.watches) == list_entries(before.watches).remove(unit.spec_neg().spec_index()),
            list_entries(before.watches).contains_key(unit.spec_neg().spec_index())
                ==> snap == list_entries(before.watches)[unit.spec_neg().spec_index()],
            !list_entries(before.watches).contains_key(unit.spec_neg().spec_index()) ==> snap.len() == 0,
        ensures
            self.hold_except(unit.spec_neg(), snap),
            self.listed_except(unit.spec_neg().spec_index(), snap),
    {
        let neg = unit.spec_neg();
        let key = neg.spec_index();
        assert forall|k: int| #![trigger self.clauses@[k]] 0 <= k < self.clauses@.len() implies {
            &&& (self.watch_pair_ok(first_watch(self.clauses@[k]@), second_watch(self.clauses@[k]@))
                || (first_watch(self.clauses@[k]@) == neg && snap.contains(k as usize)))
            &&& (self.watch_pair_ok(second_watch(self.clauses@[k]@), first_watch(self.clauses@[k]@))
                || (second_watch(self.clauses@[k]@) == neg && snap.contains(k as usize)))
        } by {
            let c = self.clauses@[k]@;
            assert(before.clauses@[k] == self.clauses@[k]);
            assert(before.clause_ok(c));
            assert(before.clauses@[k]@ == c);
            self.lemma_pair_after_pop_queue(before, unit, first_watch(c), second_watch(c));
            self.lemma_pair_after_pop_queue(before, unit, second_watch(c), first_watch(c));
        }
        let w = list_entries(self.watches);
        let bw = list_entries(before.watches);
        assert forall|k: int| #![trigger self.clauses@[k]] 0 <= k < self.clauses@.len() implies {
            &&& (first_watch(self.clauses@[k]@).spec_index() == key ==> snap.contains(k as usize))
            &&& (first_watch(self.clauses@[k]@).spec_index() != key ==> w.contains_key(first_watch(self.clauses@[k]@).spec_index())
                && w[first_watch(self.clauses@[k]@).spec_index()].contains(k as usize))
            &&& (second_watch(self.clauses@[k]@).spec_index() == key ==> snap.contains(k as usize))
            &&& (second_watch(self.clauses@[k]@).spec_index() != key ==> w.contains_key(second_watch(self.clauses@[k]@).spec_index())
                && w[second_watch(self.clauses@[k]@).spec_index()].contains(k as usize))
        } by {
            assert(before.clauses@[k] == self.clauses@[k]);
        }
    }

    proof fn lemma_pair_after_pop_queue(&self, before: Solver, unit: Literal, w: Literal, o: Literal)
        requires
            before.inv(),
            self.inv(),
            before.watch_pair_ok(w, o),
            w.wf(),
            unit.wf(),
            before.bcp_queue@.len() > 0,
            unit == before.bcp_queue@[0],
            self.bcp_queue@ == before.bcp_queue@.drop_first(),
            self.model() == before.model(),
            self.trail == before.trail,
            self.trail_lim == before.trail_lim,
        ensures
            self.watch_pair_ok(w, o) || w == unit.spec_neg(),
    {
        if lit_false(w, self.model()) && !self.bcp_queue@.contains(w.spec_neg()) {
            if before.bcp_queue@.contains(w.spec_neg()) {
                let z = choose|z: int| 0 <= z < before.bcp_queue@.len() && before.bcp_queue@[z] == w.spec_neg();
                if z > 0 {
                    assert(self.bcp_queue@[z - 1] == w.spec_neg());
                }
                assert(w.spec_neg() == unit);
            }
        }
    }
}

impl Solver {
    /// One clause changed or was visited: the discipline, with its
    /// exceptions, carries over to the other clauses.
    proof fn lemma_hold_frame(
        &self,
        pre: Solver,
        neg: Literal,
        pend_pre: Seq<usize>,
        pend_new: Seq<usize>,
        ci: int,
    )
        requires
            pre.inv(),
            self.inv(),
            pre.hold_except(neg, pend_pre),
            self.model() == pre.model(),
            self.bcp_queue@ == pre.bcp_queue@,
            self.trail == pre.trail,
            self.trail_lim == pre.trail_lim,
            self.clauses@.len() == pre.clauses@.len(),
            0 <= ci < self.clauses@.len(),
            forall|k: int| 0 <= k < self.clauses@.len() && k != ci ==> #[trigger] self.clauses@[k]@ == pre.clauses@[k]@,
            forall|k: int| 0 <= k < self.clauses@.len() && k != ci && #[trigger] pend_pre.contains(k as usize)
                ==> pend_new.contains(k as usize),
            self.watch_pair_ok(first_watch(self.clauses@[ci]@), second_watch(self.clauses@[ci]@)),
            self.watch_pair_ok(second_watch(self.clauses@[ci]@), first_watch(self.clauses@[ci]@)),
        ensures
            self.hold_except(neg, pend_new),
    {
        assert forall|k: int| #![trigger self.clauses@[k]] 0 <= k < self.clauses@.len() implies {
            &&& (self.watch_pair_ok(first_watch(self.clauses@[k]@), second_watch(self.clauses@[k]@))
                || (first_watch(self.clauses@[k]@) == neg && pend_new.contains(k as usize)))
            &&& (self.watch_pair_ok(second_watch(self.clauses@[k]@), first_watch(self.clauses@[k]@))
                || (second_watch(self.clauses@[k]@) == neg && pend_new.contains(k as usize)))
        } by {
            if k != ci {
                assert(pre.clauses@[k]@ == self.clauses@[k]@);
                assert(pre.clauses@[k] == pre.clauses@[k]);
            }
        }
    }

    /// After a new literal is assigned and queued, the discipline, with its
    /// exceptions, carries over to the clauses other than `ci`.
    proof fn lemma_hold_store(
        &self,
        pre: Solver,
        neg: Literal,
        pend_pre: Seq<usize>,
        pend_new: Seq<usize>,
        ci: int,
        literal: Literal,
    )
        requires
            pre.inv(),
            self.inv(),
            pre.hold_except(neg, pend_pre),
            literal.wf(),
            !pre.model().contains_key(literal.spec_var()),
            self.trail@ == pre.trail@.push(literal),
            self.trail_lim@ == pre.trail_lim@,
            self.bcp_queue@ == pre.bcp_queue@.push(literal),
            self.model() == pre.model().insert(literal.spec_var(), literal.spec_sign()),
            self.clauses == pre.clauses,
            0 <= ci < self.clauses@.len(),
            forall|k: int| 0 <= k < self.clauses@.len() && k != ci && #[trigger] pend_pre.contains(k as usize)
                ==> pend_new.contains(k as usize),
            self.watch_pair_ok(first_watch(self.clauses@[ci]@), second_watch(self.clauses@[ci]@)),
            self.watch_pair_ok(second_watch(self.clauses@[ci]@), first_watch(self.clauses@[ci]@)),
        ensures
            self.hold_except(neg, pend_new),
    {
        let n = pre.trail@.len() as int;
        assert forall|i: int| 0 <= i < n implies #[trigger] self.trail@[i] == pre.trail@[i] by {}
        assert forall|i: int| 0 <= i < n implies #[trigger] level_at(self.trail_lim@, i) == level_at(pre.trail_lim@, i) by {}
        assert forall|k: int| #![trigger self.clauses@[k]] 0 <= k < self.clauses@.len() implies {
            &&& (self.watch_pair_ok(first_watch(self.clauses@[k]@), second_watch(self.clauses@[k]@))
                || (first_watch(self.clauses@[k]@) == neg && pend_new.contains(k as usize)))
            &&& (self.watch_pair_ok(second_watch(self.clauses@[k]@), first_watch(self.clauses@[k]@))
                || (second_watch(self.clauses@[k]@) == neg && pend_new.contains(k as usize)))
        } by {
            if k != ci {
                let c = self.clauses@[k]@;
                assert(pre.clauses@[k] == self.clauses@[k]);
                assert(pre.clause_ok(c));
                let a = first_watch(c);
                let b = second_watch(c);
                assert(a.wf() && b.wf());
                if pre.watch_pair_ok(a, b) {
                    self.lemma_pair_after_store(pre, literal, a, b);
                }
                if pre.watch_pair_ok(b, a) {
                    self.lemma_pair_after_store(pre, literal, b, a);
                }
            }
        }
    }

    /// One clause was visited: the watch lists, with their exceptions, carry
    /// over to the other clauses.
    proof fn lemma_listed_frame(
        &self,
        pre: Solver,
        key: nat,
        extra_pre: Seq<usize>,
        extra_new: Seq<usize>,
        ci: int,
    )
        requires
            pre.listed_except(key, extra_pre),
            self.clauses@.len() == pre.clauses@.len(),
            0 <= ci < self.clauses@.len(),
            forall|k: int| 0 <= k < self.clauses@.len() && k != ci ==> #[trigger] self.clauses@[k]@ == pre.clauses@[k]@,
            forall|k: int| 0 <= k < self.clauses@.len() && k != ci && #[trigger] extra_pre.contains(k as usize)
                ==> extra_new.contains(k as usize),
            forall|x: nat, k: usize| list_entries(pre.watches).contains_key(x) && x != key
                && #[trigger] list_entries(pre.watches)[x].contains(k) ==> list_entries(self.watches).contains_key(x)
                && list_entries(self.watches)[x].contains(k),
            ({
                let c = self.clauses@[ci]@;
                let w = list_entries(self.watches);
                &&& (first_watch(c).spec_index() == key ==> extra_new.contains(ci as usize))
                &&& (first_watch(c).spec_index() != key ==> w.contains_key(first_watch(c).spec_index())
                    && w[first_watch(c).spec_index()].contains(ci as usize))
                &&& (second_watch(c).spec_index() == key ==> extra_new.contains(ci as usize))
                &&& (second_watch(c).spec_index() != key ==> w.contains_key(second_watch(c).spec_index())
                    && w[second_watch(c).spec_index()].contains(ci as usize))
            }),
        ensures
            self.listed_except(key, extra_new),
    {
        let w = list_entries(self.watches);
        assert forall|k: int| #![trigger self.clauses@[k]] 0 <= k < self.clauses@.len() implies {
            &&& (first_watch(self.clauses@[k]@).spec_index() == key ==> extra_new.contains(k as usize))
            &&& (first_watch(self.clauses@[k]@).spec_index() != key ==> w.contains_key(first_watch(self.clauses@[k]@).spec_index())
                && w[first_watch(self.clauses@[k]@).spec_index()].contains(k as usize))
            &&& (second_watch(self.clauses@[k]@).spec_index() == key ==> extra_new.contains(k as usize))
            &&& (second_watch(self.clauses@[k]@).spec_index() != key ==> w.contains_key(second_watch(self.clauses@[k]@).spec_index())
                && w[second_watch(self.clauses@[k]@).spec_index()].contains(k as usize))
        } by {
            if k != ci {
                let c = self.clauses@[k]@;
                assert(pre.clauses@[k]@ == c);
                let pw = list_entries(pre.watches);
                let a = first_watch(c).spec_index();
                let b = second_watch(c).spec_index();
                if a != key {
                    assert(pw.contains_key(a) && pw[a].contains(k as usize));
                    assert(w.contains_key(a) && w[a].contains(k as usize));
                }
                if b != key {
                    assert(pw.contains_key(b) && pw[b].contains(k as usize));
                    assert(w.contains_key(b) && w[b].contains(k as usize));
                }
                if a == key || b == key {
                    assert(extra_pre.contains(k as usize));
                }
            }
        }
    }
}

impl Solver {
    /// A true literal sits on a level no higher than the current one.
    proof fn lemma_true_level(&self, l: Literal)
        requires
            self.inv(),
            l.wf(),
            lit_true(l, self.model()),
        ensures
            self.lit_level(l) <= self.trail_lim@.len(),
    {
        crate::measure::lemma_level_le(self.trail_lim@, self.lit_pos(l));
    }
}

impl Solver {
    /// A visited clause stays on the list being rebuilt, with its watched
    /// pairs holding.
    proof fn lemma_visit_kept(
        &self,
        pre: Solver,
        neg: Literal,
        key: nat,
        ci: int,
        kept_pre: Seq<usize>,
        pend_new: Seq<usize>,
    )
        requires
            pre.inv(),
            self.inv(),
            pre.hold_except(neg, seq![ci as usize] + pend_new),
            pre.listed_except(key, kept_pre + (seq![ci as usize] + pend_new)),
            self.model() == pre.model(),
            self.bcp_queue@ == pre.bcp_queue@,
            self.trail == pre.trail,
            self.trail_lim == pre.trail_lim,
            self.watches == pre.watches,
            self.clauses@.len() == pre.clauses@.len(),
            0 <= ci < self.clauses@.len(),
            self.clauses@.len() <= usize::MAX,
            forall|k: int| 0 <= k < self.clauses@.len() ==> #[trigger] self.clauses@[k]@ == pre.clauses@[k]@,
            self.watch_pair_ok(first_watch(self.clauses@[ci]@), second_watch(self.clauses@[ci]@)),
            self.watch_pair_ok(second_watch(self.clauses@[ci]@), first_watch(self.clauses@[ci]@)),
        ensures
            self.hold_except(neg, pend_new),
            self.listed_except(key, kept_pre.push(ci as usize) + pend_new),
    {
        let pend_pre = seq![ci as usize] + pend_new;
        let kept_new = kept_pre.push(ci as usize);
        assert forall|k: int| 0 <= k < self.clauses@.len() && k != ci && #[trigger] pend_pre.contains(k as usize)
            implies pend_new.contains(k as usize) by {
            let z = choose|z: int| 0 <= z < pend_pre.len() && pend_pre[z] == k as usize;
            assert(z != 0);
            assert(pend_new[z - 1] == k as usize);
        }
        self.lemma_hold_frame(pre, neg, pend_pre, pend_new, ci);
        assert forall|k: int| 0 <= k < self.clauses@.len() && k != ci
            && #[trigger] (kept_pre + pend_pre).contains(k as usize) implies (kept_new + pend_new).contains(k as usize) by {
            let z = choose|z: int| 0 <= z < (kept_pre + pend_pre).len() && (kept_pre + pend_pre)[z] == k as usize;
            if z < kept_pre.len() {
                assert((kept_new + pend_new)[z] == k as usize);
            } else {
                assert(z != kept_pre.len());
                assert((kept_new + pend_new)[z] == k as usize);
            }
        }
        assert((kept_new + pend_new).contains(ci as usize)) by {
            assert((kept_new + pend_new)[kept_pre.len() as int] == ci as usize);
        }
        self.lemma_listed_frame(pre, key, kept_pre + pend_pre, kept_new + pend_new, ci);
    }

    /// A visited clause that moved its watch from `neg` to `watched` leaves
    /// the list being rebuilt, and its watched pairs hold.
    proof fn lemma_visit_moved(
        &self,
        pre: Solver,
        neg: Literal,
        key: nat,
        ci: int,
        kept_pre: Seq<usize>,
        pend_new: Seq<usize>,
        a: int,
        p: int,
    )
        requires
            pre.inv(),
            self.inv(),
            pre.hold_except(neg, seq![ci as usize] + pend_new),
            pre.listed_except(key, kept_pre + (seq![ci as usize] + pend_new)),
            neg.wf(),
            key == neg.spec_index(),
            lit_false(neg, pre.model()),
            self.model() == pre.model(),
            self.bcp_queue@ == pre.bcp_queue@,
            self.trail == pre.trail,
            self.trail_lim == pre.trail_lim,
            self.clauses@.len() == pre.clauses@.len(),
            0 <= ci < self.clauses@.len(),
            self.clauses@.len() <= usize::MAX,
            forall|k: int| 0 <= k < self.clauses@.len() && k != ci ==> #[trigger] self.clauses@[k]@ == pre.clauses@[k]@,
            ({
                let c = pre.clauses@[ci]@;
                &&& c.len() >= 2
                &&& a == 0 || a == 1
                &&& c[a] == neg
                &&& 2 <= p < c.len()
                &&& !lit_false(c[p], pre.model())
                &&& self.clauses@[ci]@ == c.update(a, c[p]).update(p, c[a])
            }),
            forall|x: nat, k: usize| list_entries(pre.watches).contains_key(x)
                && #[trigger] list_entries(pre.watches)[x].contains(k) ==> list_entries(self.watches).contains_key(x)
                && list_entries(self.watches)[x].contains(k),
            list_entries(self.watches).contains_key(pre.clauses@[ci]@[p].spec_index()),
            list_entries(self.watches)[pre.clauses@[ci]@[p].spec_index()].contains(ci as usize),
        ensures
            self.hold_except(neg, pend_new),
            self.listed_except(key, kept_pre + pend_new),
    {
        let c = pre.clauses@[ci]@;
        let nc = self.clauses@[ci]@;
        let b = 1 - a;
        let watched = c[p];
        let pend_pre = seq![ci as usize] + pend_new;
        assert(pre.clause_ok(c));
        assert(nc[a] == watched);
        assert(nc[b] == c[b]);
        assert(nc.len() == c.len());
        assert(c[b] != neg);
        assert(watched != neg);
        assert(watched.wf() && c[b].wf());
        if watched.spec_index() == key {
            lemma_index_injective(watched, neg);
        }
        if c[b].spec_index() == key {
            lemma_index_injective(c[b], neg);
        }
        if a == 0 {
            assert(first_watch(c) == neg && second_watch(c) == c[b]);
            assert(first_watch(nc) == watched && second_watch(nc) == c[b]);
        } else {
            assert(second_watch(c) == neg && first_watch(c) == c[b]);
            assert(first_watch(nc) == c[b] && second_watch(nc) == watched);
        }
        assert(pre.watch_pair_ok(c[b], neg));
        assert(self.watch_pair_ok(c[b], watched));
        assert(self.watch_pair_ok(watched, c[b]));
        assert forall|k: int| 0 <= k < self.clauses@.len() && k != ci && #[trigger] pend_pre.contains(k as usize)
            implies pend_new.contains(k as usize) by {
            let z = choose|z: int| 0 <= z < pend_pre.len() && pend_pre[z] == k as usize;
            assert(z != 0);
            assert(pend_new[z - 1] == k as usize);
        }
        self.lemma_hold_frame(pre, neg, pend_pre, pend_new, ci);
        assert forall|k: int| 0 <= k < self.clauses@.len() && k != ci
            && #[trigger] (kept_pre + pend_pre).contains(k as usize) implies (kept_pre + pend_new).contains(k as usize) by {
            let z = choose|z: int| 0 <= z < (kept_pre + pend_pre).len() && (kept_pre + pend_pre)[z] == k as usize;
            if z < kept_pre.len() {
                assert((kept_pre + pend_new)[z] == k as usize);
            } else {
                assert(z != kept_pre.len());
                assert((kept_pre + pend_new)[z - 1] == k as usize);
            }
        }
        assert(list_entries(pre.watches).contains_key(c[b].spec_index()));
        assert(list_entries(pre.watches)[c[b].spec_index()].contains(ci as usize));
        self.lemma_listed_frame(pre, key, kept_pre + pend_pre, kept_pre + pend_new, ci);
    }
}

impl Solver {
    /// A visited clause that became unit and had its literal assigned stays
    /// on the list being rebuilt, and its watched pairs hold.
    proof fn lemma_visit_unit(
        &self,
        pre: Solver,
        neg: Literal,
        key: nat,
        ci: int,
        kept_pre: Seq<usize>,
        pend_new: Seq<usize>,
        u: Literal,
        a: int,
    )
        requires
            pre.inv(),
            self.inv(),
            pre.hold_except(neg, seq![ci as usize] + pend_new),
            pre.listed_except(key, kept_pre + (seq![ci as usize] + pend_new)),
            neg.wf(),
            u.wf(),
            lit_false(neg, pre.model()),
            pre.lit_level(neg) == pre.trail_lim@.len(),
            !pre.model().contains_key(u.spec_var()),
            self.trail@ == pre.trail@.push(u),
            self.trail_lim@ == pre.trail_lim@,
            self.bcp_queue@ == pre.bcp_queue@.push(u),
            self.model() == pre.model().insert(u.spec_var(), u.spec_sign()),
            self.clauses == pre.clauses,
            self.watches == pre.watches,
            0 <= ci < self.clauses@.len(),
            self.clauses@.len() <= usize::MAX,
            ({
                let c = pre.clauses@[ci]@;
                &&& c.len() >= 2
                &&& a == 0 || a == 1
                &&& c[a] == neg
                &&& c[1 - a] == u
            }),
        ensures
            self.hold_except(neg, pend_new),
            self.listed_except(key, kept_pre.push(ci as usize) + pend_new),
            self.lit_level(neg) == pre.lit_level(neg),
            lit_false(neg, self.model()),
    {
        let c = pre.clauses@[ci]@;
        let pend_pre = seq![ci as usize] + pend_new;
        let kept_new = kept_pre.push(ci as usize);
        let n = pre.trail@.len() as int;
        assert forall|i: int| 0 <= i < n implies #[trigger] self.trail@[i] == pre.trail@[i] by {}
        assert forall|i: int| 0 <= i < n implies #[trigger] level_at(self.trail_lim@, i) == level_at(pre.trail_lim@, i) by {}
        self.lemma_assigned_stable(pre, neg);
        assert(lit_true(u, self.model()));
        self.lemma_true_level(u);
        assert(self.watch_pair_ok(neg, u));
        assert(self.watch_pair_ok(u, neg));
        if a == 0 {
            assert(first_watch(c) == neg && second_watch(c) == u);
        } else {
            assert(first_watch(c) == u && second_watch(c) == neg);
        }
        assert forall|k: int| 0 <= k < self.clauses@.len() && k != ci && #[trigger] pend_pre.contains(k as usize)
            implies pend_new.contains(k as usize) by {
            let z = choose|z: int| 0 <= z < pend_pre.len() && pend_pre[z] == k as usize;
            assert(z != 0);
            assert(pend_new[z - 1] == k as usize);
        }
        self.lemma_hold_store(pre, neg, pend_pre, pend_new, ci, u);
        assert forall|k: int| 0 <= k < self.clauses@.len() && k != ci
            && #[trigger] (kept_pre + pend_pre).contains(k as usize) implies (kept_new + pend_new).contains(k as usize) by {
            let z = choose|z: int| 0 <= z < (kept_pre + pend_pre).len() && (kept_pre + pend_pre)[z] == k as usize;
            if z < kept_pre.len() {
                assert((kept_new + pend_new)[z] == k as usize);
            } else {
                assert(z != kept_pre.len());
                assert((kept_new + pend_new)[z] == k as usize);
            }
        }
        assert((kept_new + pend_new).contains(ci as usize)) by {
            assert((kept_new + pend_new)[kept_pre.len() as int] == ci as usize);
        }
        assert forall|k: int| 0 <= k < self.clauses@.len() && k != ci implies #[trigger] self.clauses@[k]@ == pre.clauses@[k]@ by {}
        self.lemma_listed_frame(pre, key, kept_pre + pend_pre, kept_new + pend_new, ci);
    }
}

impl Solver {
    /// States with the same clauses and watch lists list their clauses
    /// alike.
    proof fn lemma_listed_same(&self, a: Solver, b: Solver, key: nat, extra: Seq<usize>)
        requires
            a.listed_except(key, extra),
            a.watches == b.watches,
            a.clauses@.len() == b.clauses@.len(),
            forall|k: int| 0 <= k < a.clauses@.len() ==> #[trigger] b.clauses@[k]@ == a.clauses@[k]@,
        ensures
            b.listed_except(key, extra),
    {
        assert forall|k: int| #![trigger b.clauses@[k]] 0 <= k < b.clauses@.len() implies {
            &&& (first_watch(b.clauses@[k]@).spec_index() == key ==> extra.contains(k as usize))
            &&& (first_watch(b.clauses@[k]@).spec_index() != key ==> list_entries(b.watches).contains_key(first_watch(b.clauses@[k]@).spec_index())
                && list_entries(b.watches)[first_watch(b.clauses@[k]@).spec_index()].contains(k as usize))
            &&& (second_watch(b.clauses@[k]@).spec_index() == key ==> extra.contains(k as usize))
            &&& (second_watch(b.clauses@[k]@).spec_index() != key ==> list_entries(b.watches).contains_key(second_watch(b.clauses@[k]@).spec_index())
                && list_entries(b.watches)[second_watch(b.clauses@[k]@).spec_index()].contains(k as usize))
        } by {
            assert(a.clauses@[k] == a.clauses@[k]);
            assert(b.clauses@[k]@ == a.clauses@[k]@);
        }
    }

    /// At a conflict, the clauses still to visit go back on the list with
    /// the visited ones, and the discipline holds below the current level.
    proof fn lemma_conflict_lists(
        &self,
        pre: Solver,
        neg: Literal,
        key: nat,
        ci: int,
        kept_pre: Seq<usize>,
        pend_new: Seq<usize>,
        kept_all: Seq<usize>,
    )
        requires
            pre.inv(),
            self.inv(),
            pre.hold_except(neg, seq![ci as usize] + pend_new),
            pre.listed_except(key, kept_pre + (seq![ci as usize] + pend_new)),
            pre.queue_current(),
            neg.wf(),
            lit_false(neg, pre.model()),
            pre.lit_level(neg) == pre.trail_lim@.len(),
            self.model() == pre.model(),
            self.bcp_queue@ == pre.bcp_queue@,
            self.trail == pre.trail,
            self.trail_lim == pre.trail_lim,
            self.watches == pre.watches,
            self.clauses@.len() == pre.clauses@.len(),
            forall|k: int| 0 <= k < self.clauses@.len() ==> #[trigger] self.clauses@[k]@ == pre.clauses@[k]@,
            kept_all == kept_pre.push(ci as usize) + pend_new,
        ensures
            self.listed_except(key, kept_all),
            self.watches_hold_below(self.trail_lim@.len()),
    {
        assert(kept_all =~= kept_pre + (seq![ci as usize] + pend_new));
        self.lemma_listed_same(pre, *self, key, kept_all);
        pre.lemma_hold_below(neg, seq![ci as usize] + pend_new);
        assert forall|k: int| #![trigger self.clauses@[k]] 0 <= k < self.clauses@.len() implies
            self.clauses@[k]@ == pre.clauses@[k]@ by {}
        assert(self.watches_hold_below(self.trail_lim@.len())) by {
            assert forall|k: int| #![trigger self.clauses@[k]] 0 <= k < self.clauses@.len() implies {
                &&& (lit_false(first_watch(self.clauses@[k]@), self.model()) && self.lit_level(first_watch(self.clauses@[k]@)) < self.trail_lim@.len()
                    ==> lit_true(second_watch(self.clauses@[k]@), self.model())
                        && self.lit_level(second_watch(self.clauses@[k]@)) <= self.lit_level(first_watch(self.clauses@[k]@)))
                &&& (lit_false(second_watch(self.clauses@[k]@), self.model()) && self.lit_level(second_watch(self.clauses@[k]@)) < self.trail_lim@.len()
                    ==> lit_true(first_watch(self.clauses@[k]@), self.model())
                        && self.lit_level(first_watch(self.clauses@[k]@)) <= self.lit_level(second_watch(self.clauses@[k]@)))
            } by {
                assert(pre.clauses@[k] == pre.clauses@[k]);
            }
        }
    }

    /// Putting the rebuilt list back under its key, and emptying the queue,
    /// lists every clause again and keeps the invariant.
    proof fn lemma_conflict_exit(&self, pre: Solver, key: nat)
        requires
            pre.inv(),
            pre.listed_except(key, list_entries(self.watches)[key]),
            pre.watches_hold_below(pre.trail_lim@.len()),
            list_entries(self.watches) == list_entries(pre.watches).insert(key, list_entries(self.watches)[key]),
            forall|i: int| 0 <= i < list_entries(self.watches)[key].len() ==> #[trigger] list_entries(self.watches)[key][i] < self.clauses@.len(),
            self.bcp_queue@.len() == 0,
            self.trivially_unsat == pre.trivially_unsat,
            self.clauses == pre.clauses,
            self.learned_clauses == pre.learned_clauses,
            self.decision_provider == pre.decision_provider,
            self.restart == pre.restart,
            self.conflicts == pre.conflicts,
            self.assigns == pre.assigns,
            self.reason == pre.reason,
            self.level == pre.level,
            self.trail == pre.trail,
            self.trail_lim == pre.trail_lim,
            self.formula == pre.formula,
            self.vars == pre.vars,
        ensures
            self.inv(),
            self.watch_listed(),
            self.watches_hold_below(self.trail_lim@.len()),
    {
        let w = list_entries(self.watches);
        assert forall|k: nat, i: int| w.contains_key(k) && 0 <= i < w[k].len() implies #[trigger] w[k][i] < self.clauses@.len() by {
            if k != key {
                assert(list_entries(pre.watches).contains_key(k));
            }
        }
        assert(self.model() == pre.model());
        assert(self.trail_ok());
        assert(self.assigns_ok());
        assert(self.levels_ok());
        assert(self.reasons_ok());
        assert(self.clauses_ok());
        assert(self.roots_ok());
        assert(self.queue_ok());
        assert(self.heuristic_ok());
        assert forall|k: int| #![trigger self.clauses@[k]] 0 <= k < self.clauses@.len() implies {
            &&& w.contains_key(first_watch(self.clauses@[k]@).spec_index())
            &&& w[first_watch(self.clauses@[k]@).spec_index()].contains(k as usize)
            &&& w.contains_key(second_watch(self.clauses@[k]@).spec_index())
            &&& w[second_watch(self.clauses@[k]@).spec_index()].contains(k as usize)
        } by {
            assert(pre.clauses@[k] == self.clauses@[k]);
        }
        assert forall|k: int| #![trigger self.clauses@[k]] 0 <= k < self.clauses@.len() implies {
            &&& (lit_false(first_watch(self.clauses@[k]@), self.model()) && self.lit_level(first_watch(self.clauses@[k]@)) < self.trail_lim@.len()
                ==> lit_true(second_watch(self.clauses@[k]@), self.model())
                    && self.lit_level(second_watch(self.clauses@[k]@)) <= self.lit_level(first_watch(self.clauses@[k]@)))
            &&& (lit_false(second_watch(self.clauses@[k]@), self.model()) && self.lit_level(second_watch(self.clauses@[k]@)) < self.trail_lim@.len()
                ==> lit_true(first_watch(self.clauses@[k]@), self.model())
                    && self.lit_level(first_watch(self.clauses@[k]@)) <= self.lit_level(second_watch(self.clauses@[k]@)))
        } by {
            assert(pre.clauses@[k] == self.clauses@[k]);
        }
    }
}

impl Solver {
    /// Appending a clause that sits on the lists of its watched literals,
    /// with the lists only growing, keeps every clause listed.
    proof fn lemma_listed_after_push(&self, old_self: Solver, pushed: Solver)
        requires
            old_self.watch_listed(),
            self.clauses@.len() == old_self.clauses@.len() + 1,
            forall|j: int| 0 <= j < old_self.clauses@.len() ==> #[trigger] self.clauses@[j] == old_self.clauses@[j],
            pushed.watches == old_self.watches,
            forall|x: nat, j: usize| list_entries(pushed.watches).contains_key(x)
                && #[trigger] list_entries(pushed.watches)[x].contains(j) ==> list_entries(self.watches).contains_key(x)
                && list_entries(self.watches)[x].contains(j),
            ({
                let c = self.clauses@.last()@;
                let k = old_self.clauses@.len() as usize;
                let w = list_entries(self.watches);
                &&& w.contains_key(first_watch(c).spec_index()) && w[first_watch(c).spec_index()].contains(k)
                &&& w.contains_key(second_watch(c).spec_index()) && w[second_watch(c).spec_index()].contains(k)
            }),
        ensures
            self.watch_listed(),
    {
        let w = list_entries(self.watches);
        assert forall|j: int| #![trigger self.clauses@[j]] 0 <= j < self.clauses@.len() implies {
            &&& w.contains_key(first_watch(self.clauses@[j]@).spec_index())
            &&& w[first_watch(self.clauses@[j]@).spec_index()].contains(j as usize)
            &&& w.contains_key(second_watch(self.clauses@[j]@).spec_index())
            &&& w[second_watch(self.clauses@[j]@).spec_index()].contains(j as usize)
        } by {
            if j < old_self.clauses@.len() {
                assert(old_self.clauses@[j] == self.clauses@[j]);
                let c = self.clauses@[j]@;
                assert(list_entries(pushed.watches)[first_watch(c).spec_index()].contains(j as usize));
                assert(list_entries(pushed.watches)[second_watch(c).spec_index()].contains(j as usize));
            }
        }
    }

    /// Right after a learned clause is installed, before its literal is
    /// asserted, only the pair of its second watch is pending.
    proof fn lemma_new_clause_excused(&self, old_self: Solver, k: int)
        requires
            old_self.inv(),
            self.inv(),
            old_self.watches_hold(),
            k == old_self.clauses@.len(),
            self.clauses@.len() == k + 1,
            forall|j: int| 0 <= j < k ==> #[trigger] self.clauses@[j] == old_self.clauses@[j],
            self.model() == old_self.model(),
            self.bcp_queue@ == old_self.bcp_queue@,
            self.trail == old_self.trail,
            self.trail_lim == old_self.trail_lim,
            !self.model().contains_key(first_watch(self.clauses@[k]@).spec_var()),
        ensures
            self.hold_except(second_watch(self.clauses@[k]@), seq![k as usize]),
    {
        let c = self.clauses@[k]@;
        assert(self.clause_ok(c));
        assert forall|j: int| #![trigger self.clauses@[j]] 0 <= j < self.clauses@.len() implies {
            &&& (self.watch_pair_ok(first_watch(self.clauses@[j]@), second_watch(self.clauses@[j]@))
                || (first_watch(self.clauses@[j]@) == second_watch(c) && seq![k as usize].contains(j as usize)))
            &&& (self.watch_pair_ok(second_watch(self.clauses@[j]@), first_watch(self.clauses@[j]@))
                || (second_watch(self.clauses@[j]@) == second_watch(c) && seq![k as usize].contains(j as usize)))
        } by {
            if j < k {
                assert(old_self.clauses@[j] == self.clauses@[j]);
            } else {
                assert(seq![k as usize][0] == k as usize);
                assert(!lit_false(first_watch(c), self.model()));
            }
        }
    }

    /// Once the asserting literal of the newest clause is assigned, on the
    /// level of its second watch, the discipline holds for every clause.
    proof fn lemma_new_clause_held(&self, s1: Solver, k: int, unit: Literal)
        requires
            s1.inv(),
            self.inv(),
            s1.hold_except(second_watch(s1.clauses@[k]@), seq![k as usize]),
            0 <= k,
            k == s1.clauses@.len() - 1,
            s1.clauses@.len() <= usize::MAX,
            unit.wf(),
            first_watch(s1.clauses@[k]@) == unit,
            !s1.model().contains_key(unit.spec_var()),
            s1.clauses@[k]@.len() >= 2 ==> s1.lit_level(s1.clauses@[k]@[1]) == s1.trail_lim@.len()
                && lit_false(s1.clauses@[k]@[1], s1.model()),
            self.trail@ == s1.trail@.push(unit),
            self.trail_lim@ == s1.trail_lim@,
            self.bcp_queue@ == s1.bcp_queue@.push(unit),
            self.model() == s1.model().insert(unit.spec_var(), unit.spec_sign()),
            self.clauses == s1.clauses,
        ensures
            self.watches_hold(),
    {
        let c = self.clauses@[k]@;
        let n = s1.trail@.len() as int;
        assert forall|i: int| 0 <= i < n implies #[trigger] self.trail@[i] == s1.trail@[i] by {}
        assert forall|i: int| 0 <= i < n implies #[trigger] level_at(self.trail_lim@, i) == level_at(s1.trail_lim@, i) by {}
        assert(lit_true(unit, self.model()));
        self.lemma_true_level(unit);
        if c.len() >= 2 {
            assert(s1.clause_ok(c));
            assert(c[1].wf());
            self.lemma_assigned_stable(s1, c[1]);
        }
        assert(self.watch_pair_ok(first_watch(c), second_watch(c)));
        assert(self.watch_pair_ok(second_watch(c), first_watch(c)));
        assert forall|j: int| 0 <= j < self.clauses@.len() && j != k && #[trigger] seq![k as usize].contains(j as usize)
            implies Seq::<usize>::empty().contains(j as usize) by {
            assert(seq![k as usize][0] == k as usize);
        }
        self.lemma_hold_store(s1, second_watch(c), seq![k as usize], Seq::empty(), k, unit);
        assert forall|j: int| #![trigger self.clauses@[j]] 0 <= j < self.clauses@.len() implies {
            &&& self.watch_pair_ok(first_watch(self.clauses@[j]@), second_watch(self.clauses@[j]@))
            &&& self.watch_pair_ok(second_watch(self.clauses@[j]@), first_watch(self.clauses@[j]@))
        } by {}
    }

    /// With nothing queued, the discipline holds below any level.
    proof fn lemma_hold_to_below(&self, d: nat)
        requires
            self.inv(),
            self.watches_hold(),
            self.bcp_queue@.len() == 0,
        ensures
            self.watches_hold_below(d),
    {
        assert forall|k: int| #![trigger self.clauses@[k]] 0 <= k < self.clauses@.len() implies {
            &&& (lit_false(first_watch(self.clauses@[k]@), self.model()) && self.lit_level(first_watch(self.clauses@[k]@)) < d
                ==> lit_true(second_watch(self.clauses@[k]@), self.model())
                    && self.lit_level(second_watch(self.clauses@[k]@)) <= self.lit_level(first_watch(self.clauses@[k]@)))
            &&& (lit_false(second_watch(self.clauses@[k]@), self.model()) && self.lit_level(second_watch(self.clauses@[k]@)) < d
                ==> lit_true(first_watch(self.clauses@[k]@), self.model())
                    && self.lit_level(first_watch(self.clauses@[k]@)) <= self.lit_level(second_watch(self.clauses@[k]@)))
        } by {
            let c = self.clauses@[k]@;
            assert(self.watch_pair_ok(first_watch(c), second_watch(c)));
            assert(self.watch_pair_ok(second_watch(c), first_watch(c)));
        }
    }
}

impl Solver {
    /// Changing only the queue, to literals of the trail, keeps the
    /// invariant and the watch lists.
    proof fn lemma_queue_changed(&self, o: Solver)
        requires
            o.inv(),
            o.watch_listed(),
            forall|k: int| 0 <= k < self.bcp_queue@.len() ==> self.trail@.contains(#[trigger] self.bcp_queue@[k]),
            self.trivially_unsat == o.trivially_unsat,
            self.clauses == o.clauses,
            self.decision_provider == o.decision_provider,
            self.assigns == o.assigns,
            self.reason == o.reason,
            self.level == o.level,
            self.trail == o.trail,
            self.trail_lim == o.trail_lim,
            self.watches == o.watches,
            self.formula == o.formula,
            self.vars == o.vars,
        ensures
            self.inv(),
            self.watch_listed(),
    {
        assert(self.model() == o.model());
        assert(self.trail_ok());
        assert(self.assigns_ok());
        assert(self.levels_ok());
        assert(self.reasons_ok());
        assert(self.clauses_ok());
        assert(self.roots_ok());
        assert(self.queue_ok());
        assert(self.heuristic_ok());
        assert forall|k: int| #![trigger self.clauses@[k]] 0 <= k < self.clauses@.len() implies {
            &&& list_entries(self.watches).contains_key(first_watch(self.clauses@[k]@).spec_index())
            &&& list_entries(self.watches)[first_watch(self.clauses@[k]@).spec_index()].contains(k as usize)
            &&& list_entries(self.watches).contains_key(second_watch(self.clauses@[k]@).spec_index())
            &&& list_entries(self.watches)[second_watch(self.clauses@[k]@).spec_index()].contains(k as usize)
        } by {
            assert(o.clauses@[k] == self.clauses@[k]);
        }
    }

    /// Changing only the counters keeps the discipline.
    proof fn lemma_counter_changed(&self, o: Solver)
        requires
            o.inv(),
            self.trivially_unsat == o.trivially_unsat,
            self.clauses == o.clauses,
            self.decision_provider == o.decision_provider,
            self.assigns == o.assigns,
            self.reason == o.reason,
            self.level == o.level,
            self.trail == o.trail,
            self.trail_lim == o.trail_lim,
            self.watches == o.watches,
            self.bcp_queue == o.bcp_queue,
            self.formula == o.formula,
            self.vars == o.vars,
        ensures
            o.watches_hold() ==> self.watches_hold(),
            o.watch_listed() ==> self.watch_listed(),
            o.queue_current() ==> self.queue_current(),
            o.watches_hold_below(o.trail_lim@.len()) ==> self.watches_hold_below(self.trail_lim@.len()),
    {
        assert(self.model() == o.model());
        assert forall|k: int| #![trigger self.clauses@[k]] 0 <= k < self.clauses@.len() implies
            self.clauses@[k] == o.clauses@[k] by {}
        if o.watches_hold() {
            assert forall|k: int| #![trigger self.clauses@[k]] 0 <= k < self.clauses@.len() implies {
                &&& self.watch_pair_ok(first_watch(self.clauses@[k]@), second_watch(self.clauses@[k]@))
                &&& self.watch_pair_ok(second_watch(self.clauses@[k]@), first_watch(self.clauses@[k]@))
            } by {
                assert(o.clauses@[k] == self.clauses@[k]);
            }
        }
        if o.watches_hold_below(o.trail_lim@.len()) {
            assert forall|k: int| #![trigger self.clauses@[k]] 0 <= k < self.clauses@.len() implies {
                &&& (lit_false(first_watch(self.clauses@[k]@), self.model()) && self.lit_level(first_watch(self.clauses@[k]@)) < self.trail_lim@.len()
                    ==> lit_true(second_watch(self.clauses@[k]@), self.model())
                        && self.lit_level(second_watch(self.clauses@[k]@)) <= self.lit_level(first_watch(self.clauses@[k]@)))
                &&& (lit_false(second_watch(self.clauses@[k]@), self.model()) && self.lit_level(second_watch(self.clauses@[k]@)) < self.trail_lim@.len()
                    ==> lit_true(first_watch(self.clauses@[k]@), self.model())
                        && self.lit_level(first_watch(self.clauses@[k]@)) <= self.lit_level(second_watch(self.clauses@[k]@)))
            } by {
                assert(o.clauses@[k] == self.clauses@[k]);
            }
        }
        if o.watch_listed() {
            assert forall|k: int| #![trigger self.clauses@[k]] 0 <= k < self.clauses@.len() implies {
            &&& list_entries(self.watches).contains_key(first_watch(self.clauses@[k]@).spec_index())
            &&& list_entries(self.watches)[first_watch(self.clauses@[k]@).spec_index()].contains(k as usize)
            &&& list_entries(self.watches).contains_key(second_watch(self.clauses@[k]@).spec_index())
            &&& list_entries(self.watches)[second_watch(self.clauses@[k]@).spec_index()].contains(k as usize)
            } by {
                assert(o.clauses@[k] == self.clauses@[k]);
            }
        }
    }

    /// With every assigned literal queued, on level 0, the discipline holds:
    /// every false watched literal still has its negation queued.
    proof fn lemma_all_queued(&self)
        requires
            self.inv(),
            self.trail_lim@.len() == 0,
            self.bcp_queue@ == self.trail@,
        ensures
            self.watches_hold(),
            self.queue_current(),
    {
        assert forall|k: int| #![trigger self.clauses@[k]] 0 <= k < self.clauses@.len() implies {
            &&& self.watch_pair_ok(first_watch(self.clauses@[k]@), second_watch(self.clauses@[k]@))
            &&& self.watch_pair_ok(second_watch(self.clauses@[k]@), first_watch(self.clauses@[k]@))
        } by {
            let c = self.clauses@[k]@;
            assert(self.clause_ok(c));
            let a = first_watch(c);
            let b = second_watch(c);
            assert(a.wf() && b.wf());
            if lit_false(a, self.model()) {
                self.lemma_false_on_trail(a);
                assert(self.bcp_queue@[self.lit_pos(a)] == a.spec_neg());
            }
            if lit_false(b, self.model()) {
                self.lemma_false_on_trail(b);
                assert(self.bcp_queue@[self.lit_pos(b)] == b.spec_neg());
            }
        }
        assert forall|k: int| 0 <= k < self.bcp_queue@.len() implies self.on_trail_between(
            #[trigger] self.bcp_queue@[k],
            self.segment_start(),
            self.trail@.len() as int,
        ) by {
            assert(self.trail@[k].spec_var() == self.bcp_queue@[k].spec_var());
        }
    }
}

impl Solver {
    /// The variables of one more clause of a formula.
    proof fn lemma_formula_vars_push(f: Seq<Seq<Literal>>, j: int)
        requires
            0 <= j < f.len(),
        ensures
            formula_vars(f.subrange(0, j + 1)) == formula_vars(f.subrange(0, j)).union(lits_vars(f[j])),
    {
        let a = f.subrange(0, j + 1);
        let b = f.subrange(0, j);
        assert forall|v: nat| formula_vars(a).contains(v) implies formula_vars(b).union(lits_vars(f[j])).contains(v) by {
            let (q, i) = choose|q: int, i: int| 0 <= q < a.len() && 0 <= i < a[q].len() && (#[trigger] a[q][i]).spec_var() == v;
            if q < j {
                assert(b[q][i] == a[q][i]);
            } else {
                assert(f[j][i].spec_var() == v);
            }
        }
        assert forall|v: nat| formula_vars(b).union(lits_vars(f[j])).contains(v) implies formula_vars(a).contains(v) by {
            if formula_vars(b).contains(v) {
                let (q, i) = choose|q: int, i: int| 0 <= q < b.len() && 0 <= i < b[q].len() && (#[trigger] b[q][i]).spec_var() == v;
                assert(a[q][i] == b[q][i]);
            } else {
                let i = choose|i: int| 0 <= i < f[j].len() && (#[trigger] f[j][i]).spec_var() == v;
                assert(a[j][i] == f[j][i]);
            }
        }
        assert(formula_vars(a) =~= formula_vars(b).union(lits_vars(f[j])));
    }
}

impl Solver {
    /// A learned clause of one literal is asserted before any decision, so
    /// clauses of one literal stay assigned there.
    proof fn lemma_units_learned(&self, old_self: Solver, k: int, unit: Literal)
        requires
            old_self.inv(),
            old_self.units_assigned(),
            self.inv(),
            k == old_self.clauses@.len(),
            self.clauses@.len() == k + 1,
            forall|j: int| 0 <= j < k ==> #[trigger] self.clauses@[j] == old_self.clauses@[j],
            self.clauses@[k]@[0] == unit,
            self.clauses@[k]@.len() == 1 ==> old_self.trail_lim@.len() == 0,
            lit_true(unit, self.model()),
            self.trail@ == old_self.trail@.push(unit),
            self.trail_lim@ == old_self.trail_lim@,
        ensures
            self.units_assigned(),
    {
        assert forall|j: int| #![trigger self.clauses@[j]]
            0 <= j < self.clauses@.len() && self.clauses@[j]@.len() == 1 implies exists|i: int|
                0 <= i < self.trail@.len() && (self.trail_lim@.len() == 0 || i < self.trail_lim@[0])
                    && #[trigger] self.trail@[i].spec_var() == self.clauses@[j]@[0].spec_var() by {
            if j < k {
                assert(old_self.clauses@[j] == self.clauses@[j]);
                let i = choose|i: int| 0 <= i < old_self.trail@.len() && (old_self.trail_lim@.len() == 0 || i < old_self.trail_lim@[0])
                    && #[trigger] old_self.trail@[i].spec_var() == old_self.clauses@[j]@[0].spec_var();
                assert(self.trail@[i] == old_self.trail@[i]);
            } else {
                assert(self.trail@[old_self.trail@.len() as int] == unit);
            }
        }
    }
}

} // verus!
