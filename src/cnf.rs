use vstd::prelude::*;

use crate::literal::Literal;

verus! {

/// An assignment of truth values to variables; a variable outside the domain
/// is unassigned.
pub type Model = Map<nat, bool>;

/// The literal is true under the model.
pub open spec fn lit_true(l: Literal, m: Model) -> bool {
    m.contains_key(l.spec_var()) && m[l.spec_var()] == l.spec_sign()
}

/// The literal is false under the model.
pub open spec fn lit_false(l: Literal, m: Model) -> bool {
    m.contains_key(l.spec_var()) && m[l.spec_var()] != l.spec_sign()
}

/// Some literal of the clause is true under the model.
pub open spec fn clause_sat(c: Seq<Literal>, m: Model) -> bool {
    exists|i: int| 0 <= i < c.len() && #[trigger] lit_true(c[i], m)
}

/// Every literal of the clause is false under the model.
pub open spec fn clause_false(c: Seq<Literal>, m: Model) -> bool {
    forall|i: int| 0 <= i < c.len() ==> #[trigger] lit_false(c[i], m)
}

/// Every clause of the formula is satisfied by the model.
pub open spec fn formula_sat(f: Seq<Seq<Literal>>, m: Model) -> bool {
    forall|j: int| 0 <= j < f.len() ==> #[trigger] clause_sat(f[j], m)
}

/// Some model satisfies the formula.
pub open spec fn satisfiable(f: Seq<Seq<Literal>>) -> bool {
    exists|m: Model| #[trigger] formula_sat(f, m)
}

/// Every literal of the clause but one is false, and that one is
/// unassigned: the clause forces it.
pub open spec fn pending_unit(c: Seq<Literal>, m: Model) -> bool {
    exists|i: int|
        0 <= i < c.len() && !m.contains_key((#[trigger] c[i]).spec_var()) && forall|j: int|
            0 <= j < c.len() && j != i ==> lit_false(#[trigger] c[j], m)
}

/// The variables of the literals.
pub open spec fn lits_vars(c: Seq<Literal>) -> Set<nat> {
    Set::new(|v: nat| exists|i: int| 0 <= i < c.len() && (#[trigger] c[i]).spec_var() == v)
}

/// The variables of the formula.
pub open spec fn formula_vars(f: Seq<Seq<Literal>>) -> Set<nat> {
    Set::new(|v: nat| exists|j: int, i: int| 0 <= j < f.len() && 0 <= i < f[j].len() && (#[trigger] f[j][i]).spec_var() == v)
}

/// Every model of the formula satisfies the clause.
pub open spec fn entails(f: Seq<Seq<Literal>>, c: Seq<Literal>) -> bool {
    forall|m: Model| #[trigger] formula_sat(f, m) ==> clause_sat(c, m)
}

/// Every model of the formula makes the literal true.
pub open spec fn entails_lit(f: Seq<Seq<Literal>>, l: Literal) -> bool {
    forall|m: Model| #[trigger] formula_sat(f, m) ==> lit_true(l, m)
}

} // verus!

verus! {

/// A clause whose other literals are all refuted by the formula makes the
/// remaining literal a consequence of the formula.
pub proof fn lemma_unit_entailed(f: Seq<Seq<Literal>>, c: Seq<Literal>, u: Literal)
    requires
        entails(f, c),
        forall|l: Literal| c.contains(l) && l != u ==> entails_lit(f, #[trigger] l.spec_neg()),
        forall|l: Literal| c.contains(l) ==> #[trigger] l.wf(),
    ensures
        entails_lit(f, u),
{
    assert forall|m: Model| #[trigger] formula_sat(f, m) implies lit_true(u, m) by {
        assert(clause_sat(c, m));
        let i = choose|i: int| 0 <= i < c.len() && #[trigger] lit_true(c[i], m);
        assert(c.contains(c[i]));
        if c[i] != u {
            assert(c.contains(c[i]));
            assert(entails_lit(f, c[i].spec_neg()));
            assert(lit_true(c[i].spec_neg(), m));
            assert(c[i].wf());
            assert(c[i].spec_neg().spec_var() == c[i].spec_var());
            assert(c[i].spec_neg().spec_sign() != c[i].spec_sign());
        }
    }
}

/// A clause of the formula's consequences that is false wherever all its
/// literals are refuted leaves the formula without a model.
pub proof fn lemma_refuted_clause(f: Seq<Seq<Literal>>, c: Seq<Literal>)
    requires
        entails(f, c),
        forall|l: Literal| c.contains(l) ==> entails_lit(f, #[trigger] l.spec_neg()),
        forall|l: Literal| c.contains(l) ==> #[trigger] l.wf(),
    ensures
        !satisfiable(f),
{
    if satisfiable(f) {
        let m = choose|m: Model| #[trigger] formula_sat(f, m);
        assert(clause_sat(c, m));
        let i = choose|i: int| 0 <= i < c.len() && #[trigger] lit_true(c[i], m);
        assert(c.contains(c[i]));
        assert(entails_lit(f, c[i].spec_neg()));
        assert(lit_true(c[i].spec_neg(), m));
        assert(c[i].wf());
        assert(c[i].spec_neg().spec_var() == c[i].spec_var());
        assert(c[i].spec_neg().spec_sign() != c[i].spec_sign());
    }
}

} // verus!

verus! {

/// Resolving two consequences of the formula on a variable that occurs in
/// them with opposite signs only gives a consequence of the formula.
pub proof fn lemma_resolution(
    f: Seq<Seq<Literal>>,
    a: Seq<Literal>,
    b: Seq<Literal>,
    r: Literal,
    res: Seq<Literal>,
)
    requires
        entails(f, a),
        entails(f, b),
        r.wf(),
        forall|l: Literal| a.contains(l) ==> #[trigger] l.wf(),
        forall|l: Literal| b.contains(l) ==> #[trigger] l.wf(),
        forall|l: Literal| #[trigger] a.contains(l) && l.spec_var() == r.spec_var() ==> l == r.spec_neg(),
        forall|l: Literal| #[trigger] b.contains(l) && l.spec_var() == r.spec_var() ==> l == r,
        forall|l: Literal|
            #[trigger] res.contains(l) <==> ((a.contains(l) || b.contains(l)) && l.spec_var() != r.spec_var()),
    ensures
        entails(f, res),
{
    assert forall|m: Model| #[trigger] formula_sat(f, m) implies clause_sat(res, m) by {
        assert(clause_sat(a, m));
        assert(clause_sat(b, m));
        let i = choose|i: int| 0 <= i < a.len() && #[trigger] lit_true(a[i], m);
        let j = choose|j: int| 0 <= j < b.len() && #[trigger] lit_true(b[j], m);
        assert(a.contains(a[i]));
        assert(b.contains(b[j]));
        if a[i].spec_var() != r.spec_var() {
            assert(res.contains(a[i]));
            let k = choose|k: int| 0 <= k < res.len() && res[k] == a[i];
            assert(lit_true(res[k], m));
        } else {
            assert(a[i] == r.spec_neg());
            if b[j].spec_var() == r.spec_var() {
                assert(b[j] == r);
                assert(false);
            }
            assert(res.contains(b[j]));
            let k = choose|k: int| 0 <= k < res.len() && res[k] == b[j];
            assert(lit_true(res[k], m));
        }
    }
}

} // verus!

verus! {

/// A consequence of a formula stays one when a clause is added.
pub proof fn lemma_entails_push(f: Seq<Seq<Literal>>, x: Seq<Literal>, c: Seq<Literal>)
    requires
        entails(f, c),
    ensures
        entails(f.push(x), c),
{
    assert forall|m: Model| #[trigger] formula_sat(f.push(x), m) implies clause_sat(c, m) by {
        assert forall|j: int| 0 <= j < f.len() implies #[trigger] clause_sat(f[j], m) by {
            assert(f.push(x)[j] == f[j]);
        }
        assert(formula_sat(f, m));
    }
}

/// A literal that a formula forces stays forced when a clause is added.
pub proof fn lemma_entails_lit_push(f: Seq<Seq<Literal>>, x: Seq<Literal>, l: Literal)
    requires
        entails_lit(f, l),
    ensures
        entails_lit(f.push(x), l),
{
    assert forall|m: Model| #[trigger] formula_sat(f.push(x), m) implies lit_true(l, m) by {
        assert forall|j: int| 0 <= j < f.len() implies #[trigger] clause_sat(f[j], m) by {
            assert(f.push(x)[j] == f[j]);
        }
        assert(formula_sat(f, m));
    }
}

/// An unsatisfiable formula stays unsatisfiable whatever clause is added to
/// it.
pub proof fn lemma_unsat_push(f: Seq<Seq<Literal>>, x: Seq<Literal>)
    requires
        !satisfiable(f),
    ensures
        !satisfiable(f.push(x)),
{
    if satisfiable(f.push(x)) {
        let m = choose|m: Model| #[trigger] formula_sat(f.push(x), m);
        assert forall|j: int| 0 <= j < f.len() implies #[trigger] clause_sat(f[j], m) by {
            assert(f.push(x)[j] == f[j]);
        }
        assert(formula_sat(f, m));
    }
}

/// A formula with an empty clause is unsatisfiable.
pub proof fn lemma_empty_clause_unsat(f: Seq<Seq<Literal>>, j: int)
    requires
        0 <= j < f.len(),
        f[j].len() == 0,
    ensures
        !satisfiable(f),
{
    if satisfiable(f) {
        let m = choose|m: Model| #[trigger] formula_sat(f, m);
        assert(clause_sat(f[j], m));
    }
}

} // verus!
