//! Properties of the solver's results over all formulas.
use vstd::prelude::*;

use crate::cnf::{formula_sat, satisfiable, Model};
use crate::literal::Literal;
use crate::solver::SolverResult;

verus! {

/// Two solvers that each answer `Sat` exactly for satisfiable formulas give
/// the same answer on the same formula: solving twice, with fresh solvers,
/// yields the same result.
pub proof fn lemma_results_agree(f: Seq<Seq<Literal>>, r1: SolverResult, r2: SolverResult)
    requires
        (r1 == SolverResult::Sat) == satisfiable(f),
        (r2 == SolverResult::Sat) == satisfiable(f),
    ensures
        r1 == r2,
{
}

/// The empty formula is satisfiable.
pub proof fn lemma_empty_formula_sat()
    ensures
        satisfiable(Seq::<Seq<Literal>>::empty()),
{
    let m = Map::<nat, bool>::empty();
    assert(formula_sat(Seq::<Seq<Literal>>::empty(), m));
}

/// A model of the formula that satisfies a further clause is a model of the
/// larger formula; so a formula with no model has none once a clause is
/// added.
pub proof fn lemma_model_of_larger(f: Seq<Seq<Literal>>, c: Seq<Literal>, m: Model)
    requires
        formula_sat(f.push(c), m),
    ensures
        formula_sat(f, m),
{
    assert forall|j: int| 0 <= j < f.len() implies #[trigger] crate::cnf::clause_sat(f[j], m) by {
        assert(f.push(c)[j] == f[j]);
        assert(crate::cnf::clause_sat(f.push(c)[j], m));
    }
}

} // verus!

verus! {

/// Backtracking is an exact undo of the trail: after a decision opens level
/// `lim.len() + 1` at the end of trail `t`, and any literals `more` follow on
/// that level, popping back to level `lim.len()` (which cuts the trail at
/// the start of the next level and the limits to their first `lim.len()`
/// entries) gives back exactly `t` and `lim`.
pub proof fn lemma_backtrack_undoes(t: Seq<Literal>, lim: Seq<usize>, d: Literal, more: Seq<Literal>)
    requires
        t.len() <= usize::MAX,
    ensures
        ({
            let t2 = t.push(d) + more;
            let lim2 = lim.push(t.len() as usize);
            &&& t2.subrange(0, lim2[lim.len() as int] as int) == t
            &&& lim2.subrange(0, lim.len() as int) == lim
        }),
{
    let t2 = t.push(d) + more;
    let lim2 = lim.push(t.len() as usize);
    assert(t2.subrange(0, lim2[lim.len() as int] as int) =~= t);
    assert(lim2.subrange(0, lim.len() as int) =~= lim);
}

} // verus!
