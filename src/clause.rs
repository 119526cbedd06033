use vstd::prelude::*;

use vec_map::VecMap;

use crate::cnf::{lit_false, lit_true};
use crate::literal::Literal;
use crate::maps::{bool_entries, bool_map_get};

verus! {

broadcast use vstd::seq_lib::group_to_multiset_ensures;

/// What a clause reports when one of its watched literals became false.
#[derive(Debug, PartialEq, Eq, Structural)]
pub enum WatchedUpdate {
    /// No other literal can be watched: the remaining watched literal must
    /// hold (or is already false, and the clause is a conflict).
    NowUnit(Literal),
    /// The clause now watches this literal instead of the falsified one.
    NewWatched(Literal),
    /// Nothing to do.
    NoChange,
}

/// The integers are in strictly increasing order.
pub open spec fn strictly_sorted(s: Seq<i64>) -> bool {
    forall|i: int, j: int| 0 <= i < j < s.len() ==> s[i] < s[j]
}

/// The integers are in increasing order.
pub open spec fn sorted(s: Seq<i64>) -> bool {
    forall|i: int, j: int| 0 <= i < j < s.len() ==> s[i] <= s[j]
}

/// The literals are in strictly increasing order of their integers.
pub open spec fn lits_strictly_sorted(s: Seq<Literal>) -> bool {
    forall|i: int, j: int| 0 <= i < j < s.len() ==> s[i].0 < s[j].0
}

/// Every literal names a variable.
pub open spec fn lits_wf(s: Seq<Literal>) -> bool {
    forall|i: int| 0 <= i < s.len() ==> (#[trigger] s[i]).wf()
}

/// No literal occurs twice.
pub open spec fn lits_distinct(s: Seq<Literal>) -> bool {
    forall|i: int, j: int| 0 <= i < j < s.len() ==> s[i] != s[j]
}

/// The position of the watched slot that holds `neg`, or -1 where neither
/// watched slot holds it.
pub open spec fn watch_slot(s: Seq<Literal>, neg: Literal) -> int {
    if s.len() >= 1 && s[0] == neg {
        0
    } else if s.len() >= 2 && s[1] == neg {
        1
    } else {
        -1
    }
}

/// The watched slot other than `a`; a clause of one literal watches it twice.
pub open spec fn other_slot(s: Seq<Literal>, a: int) -> int {
    if s.len() == 1 { 0 } else { 1 - a }
}

/// Relies on slice::sort_unstable: the integers end in increasing order, each
/// as often as before.
#[verifier::external_body]
fn sort_ints(v: &mut Vec<i64>)
    ensures
        sorted(final(v)@),
        final(v)@.to_multiset() == old(v)@.to_multiset(),
{
    v.sort_unstable();
}

/// The distinct integers of `v` as literals, in increasing order.
pub(crate) fn sorted_unique(v: Vec<i64>) -> (r: Vec<Literal>)
    ensures
        lits_strictly_sorted(r@),
        forall|l: Literal| r@.contains(l) <==> v@.contains(l.0),
{
    let mut v = v;
    let ghost orig = v@;
    sort_ints(&mut v);
    assert forall|x: i64| v@.contains(x) <==> orig.contains(x) by {
        assert(v@.to_multiset().count(x) == orig.to_multiset().count(x));
    }
    let mut out: Vec<Literal> = Vec::new();
    let mut i: usize = 0;
    while i < v.len()
        invariant
            i <= v.len(),
            sorted(v@),
            lits_strictly_sorted(out@),
            out@.len() > 0 ==> out@.last().0 == v@[i - 1],
            out@.len() <= i,
            forall|l: Literal| out@.contains(l) <==> (exists|k: int| 0 <= k < i && #[trigger] v@[k] == l.0),
        decreases v.len() - i,
    {
        let x = v[i];
        let ghost prev = out@;
        if out.len() == 0 || out[out.len() - 1].0 != x {
            proof {
                if prev.len() > 0 {
                    assert(v@[i - 1] <= v@[i as int]);
                    assert forall|a: int| 0 <= a < prev.len() implies prev[a].0 < x by {
                        if a < prev.len() - 1 {
                            assert(prev[a].0 < prev[prev.len() - 1].0);
                        }
                    }
                }
            }
            out.push(Literal(x));
            proof {
                assert forall|a: int, b: int| 0 <= a < b < out@.len() implies out@[a].0 < out@[b].0 by {
                    if b < prev.len() {
                        assert(prev[a].0 < prev[b].0);
                    } else {
                        assert(out@[a] == prev[a]);
                    }
                }
            }
        }
        proof {
            assert forall|l: Literal| (exists|k: int| 0 <= k < i + 1 && #[trigger] v@[k] == l.0) implies out@.contains(l) by {
                if exists|k: int| 0 <= k < i + 1 && #[trigger] v@[k] == l.0 {
                    if l.0 == x {
                        assert(out@.last() == Literal(x));
                    } else {
                        let k = choose|k: int| 0 <= k < i + 1 && #[trigger] v@[k] == l.0;
                        assert(k < i);
                        assert(prev.contains(l));
                        let j = choose|j: int| 0 <= j < prev.len() && prev[j] == l;
                        assert(out@[j] == l);
                    }
                }
            }
            assert forall|l: Literal| out@.contains(l) implies (exists|k: int| 0 <= k < i + 1 && #[trigger] v@[k] == l.0) by {
                let j = choose|j: int| 0 <= j < out@.len() && out@[j] == l;
                if j < prev.len() {
                    assert(prev[j] == l);
                    assert(prev.contains(l));
                } else {
                    assert(v@[i as int] == l.0);
                }
            }
        }
        i = i + 1;
    }
    assert forall|l: Literal| out@.contains(l) <==> v@.contains(l.0) by {
        if v@.contains(l.0) {
            let k = choose|k: int| 0 <= k < v@.len() && v@[k] == l.0;
            assert(v@[k] == l.0);
        }
    }
    out
}

/// A disjunction of distinct literals, two of whose positions are the watched
/// slots: positions 0 and 1, or position 0 twice for a single literal.
#[derive(Debug, PartialEq, Eq)]
pub struct Clause(Vec<Literal>);

impl View for Clause {
    type V = Seq<Literal>;

    closed spec fn view(&self) -> Seq<Literal> {
        self.0@
    }
}

impl Clause {
    /// The clause of the given literals, sorted and without repetitions.
    pub fn new(literals: Vec<i64>) -> (r: Clause)
        ensures
            lits_strictly_sorted(r@),
            forall|l: Literal| r@.contains(l) <==> literals@.contains(l.0),
    {
        Clause(sorted_unique(literals))
    }

    /// The clause of the given literals, sorted and without repetitions.
    pub fn from_literals(literals: Vec<Literal>) -> (r: Clause)
        ensures
            lits_strictly_sorted(r@),
            forall|l: Literal| r@.contains(l) <==> literals@.contains(l),
    {
        let mut nums: Vec<i64> = Vec::new();
        let mut i: usize = 0;
        while i < literals.len()
            invariant
                i <= literals.len(),
                nums@.len() == i,
                forall|k: int| 0 <= k < i ==> nums@[k] == literals@[k].0,
            decreases literals.len() - i,
        {
            nums.push(literals[i].0);
            i = i + 1;
        }
        let r = Clause(sorted_unique(nums));
        proof {
            assert forall|l: Literal| r@.contains(l) <==> literals@.contains(l) by {
                if literals@.contains(l) {
                    let k = choose|k: int| 0 <= k < literals@.len() && literals@[k] == l;
                    assert(nums@[k] == l.0);
                }
                if nums@.contains(l.0) {
                    let k = choose|k: int| 0 <= k < nums@.len() && nums@[k] == l.0;
                    assert(literals@[k] == l);
                }
            }
        }
        r
    }

    /// The two watched literals; a clause of one literal watches it twice.
    pub fn watched_literals(&self) -> (r: (Literal, Literal))
        requires
            self@.len() >= 1,
        ensures
            r.0 == self@[0],
            r.1 == (if self@.len() == 1 { self@[0] } else { self@[1] }),
    {
        if self.0.len() == 1 {
            (self.0[0], self.0[0])
        } else {
            (self.0[0], self.0[1])
        }
    }

    pub fn literals(&self) -> (r: &Vec<Literal>)
        ensures
            r@ == self@,
    {
        &self.0
    }

    /// Updates the watched slots after `literal` became true, which makes
    /// false the watched literal `¬literal`. A clause that does not watch
    /// `¬literal` is left unchanged, and so is one whose watched slot is
    /// true after all. Otherwise the first literal after the watched slots
    /// that is not false is swapped into that slot and reported; where there
    /// is none, the other watched literal is reported as unit.
    pub fn propagate(&mut self, literal: &Literal, assigns: &VecMap<bool>) -> (r: WatchedUpdate)
        requires
            literal.wf(),
            lits_wf(old(self)@),
        ensures
            ({
                let s = old(self)@;
                let m = bool_entries(*assigns);
                let a = watch_slot(s, literal.spec_neg());
                let b = other_slot(s, a);
                if a < 0 || lit_true(s[a], m) {
                    r == WatchedUpdate::NoChange && final(self)@ == s
                } else {
                    match r {
                        WatchedUpdate::NowUnit(u) => {
                            &&& u == s[b]
                            &&& final(self)@ == s
                            &&& forall|i: int| 2 <= i < s.len() ==> lit_false(#[trigger] s[i], m)
                        },
                        WatchedUpdate::NewWatched(w) => exists|p: int|
                            {
                                &&& 2 <= p < s.len()
                                &&& !lit_false(s[p], m)
                                &&& forall|i: int| 2 <= i < p ==> lit_false(#[trigger] s[i], m)
                                &&& w == s[p]
                                &&& final(self)@ == s.update(a, s[p]).update(p, s[a])
                            },
                        WatchedUpdate::NoChange => false,
                    }
                }
            }),
            final(self)@.len() == old(self)@.len(),
            forall|l: Literal| final(self)@.contains(l) <==> old(self)@.contains(l),
            lits_distinct(old(self)@) ==> lits_distinct(final(self)@),
    {
        let neg = literal.negate();
        let n = self.0.len();
        if n >= 1 && self.0[0] == neg {
            let other: usize = if n == 1 { 0 } else { 1 };
            self.check(0, other, assigns)
        } else if n >= 2 && self.0[1] == neg {
            self.check(1, 0, assigns)
        } else {
            WatchedUpdate::NoChange
        }
    }

    fn check(&mut self, idx: usize, other_idx: usize, assigns: &VecMap<bool>) -> (r: WatchedUpdate)
        requires
            idx < 2,
            idx < old(self)@.len(),
            other_idx < old(self)@.len(),
            lits_wf(old(self)@),
        ensures
            ({
                let s = old(self)@;
                let m = bool_entries(*assigns);
                let a = idx as int;
                if lit_true(s[a], m) {
                    r == WatchedUpdate::NoChange && final(self)@ == s
                } else {
                    match r {
                        WatchedUpdate::NowUnit(u) => {
                            &&& u == s[other_idx as int]
                            &&& final(self)@ == s
                            &&& forall|i: int| 2 <= i < s.len() ==> lit_false(#[trigger] s[i], m)
                        },
                        WatchedUpdate::NewWatched(w) => exists|p: int|
                            {
                                &&& 2 <= p < s.len()
                                &&& !lit_false(s[p], m)
                                &&& forall|i: int| 2 <= i < p ==> lit_false(#[trigger] s[i], m)
                                &&& w == s[p]
                                &&& final(self)@ == s.update(a, s[p]).update(p, s[a])
                            },
                        WatchedUpdate::NoChange => false,
                    }
                }
            }),
            final(self)@.len() == old(self)@.len(),
            forall|l: Literal| final(self)@.contains(l) <==> old(self)@.contains(l),
            lits_distinct(old(self)@) ==> lits_distinct(final(self)@),
    {
        let lit = self.0[idx];
        let val = bool_map_get(assigns, lit.var());
        if lit.satisfied_by(val.as_ref()) {
            return WatchedUpdate::NoChange;
        }
        let ghost s = self@;
        let ghost m = bool_entries(*assigns);
        let n = self.0.len();
        let mut p: usize = 2;
        while p < n
            invariant
                2 <= p,
                n == self.0@.len(),
                self@ == s,
                m == bool_entries(*assigns),
                lits_wf(s),
                forall|i: int| 2 <= i < p && i < s.len() ==> lit_false(#[trigger] s[i], m),
            ensures
                p >= n || !lit_false(s[p as int], m),
                forall|i: int| 2 <= i < p && i < s.len() ==> lit_false(#[trigger] s[i], m),
            decreases n - p,
        {
            let cand = self.0[p];
            let cval = bool_map_get(assigns, cand.var());
            let falsified = cand.falsified_by(cval.as_ref());
            if !falsified {
                break;
            }
            p = p + 1;
        }
        if p >= n {
            WatchedUpdate::NowUnit(self.0[other_idx])
        } else {
            let a = self.0[idx];
            let b = self.0[p];
            self.0.set(idx, b);
            self.0.set(p, a);
            proof {
                assert(self@ == s.update(idx as int, s[p as int]).update(p as int, s[idx as int]));
                let pp = p as int;
                assert(2 <= pp < s.len() && !lit_false(s[pp], m) && b == s[pp]);
                assert forall|l: Literal| self@.contains(l) <==> s.contains(l) by {
                    if s.contains(l) {
                        let k = choose|k: int| 0 <= k < s.len() && s[k] == l;
                        if k == idx {
                            assert(self@[p as int] == l);
                        } else if k == p {
                            assert(self@[idx as int] == l);
                        } else {
                            assert(self@[k] == l);
                        }
                    }
                    if self@.contains(l) {
                        let k = choose|k: int| 0 <= k < s.len() && self@[k] == l;
                        if k == idx {
                            assert(s[p as int] == l);
                        } else if k == p {
                            assert(s[idx as int] == l);
                        } else {
                            assert(s[k] == l);
                        }
                    }
                }
                if lits_distinct(s) {
                    assert forall|i: int, j: int| 0 <= i < j < self@.len() implies self@[i] != self@[j] by {
                        let si = if i == idx { p as int } else if i == p { idx as int } else { i };
                        let sj = if j == idx { p as int } else if j == p { idx as int } else { j };
                        assert(self@[i] == s[si]);
                        assert(self@[j] == s[sj]);
                        if si < sj {
                            assert(s[si] != s[sj]);
                        } else {
                            assert(s[sj] != s[si]);
                        }
                    }
                }
            }
            WatchedUpdate::NewWatched(b)
        }
    }
}

impl Clause {
    /// Exchanges the literals at positions `i` and `j`.
    pub(crate) fn swap_literals(&mut self, i: usize, j: usize)
        requires
            i < old(self)@.len(),
            j < old(self)@.len(),
        ensures
            final(self)@ == old(self)@.update(i as int, old(self)@[j as int]).update(j as int, old(self)@[i as int]),
            final(self)@.len() == old(self)@.len(),
            forall|l: Literal| final(self)@.contains(l) <==> old(self)@.contains(l),
            lits_distinct(old(self)@) ==> lits_distinct(final(self)@),
    {
        let ghost s = self@;
        let a = self.0[i];
        let b = self.0[j];
        self.0.set(i, b);
        self.0.set(j, a);
        proof {
            assert forall|l: Literal| self@.contains(l) <==> s.contains(l) by {
                if s.contains(l) {
                    let k = choose|k: int| 0 <= k < s.len() && s[k] == l;
                    if k == i {
                        assert(self@[j as int] == l);
                    } else if k == j {
                        assert(self@[i as int] == l);
                    } else {
                        assert(self@[k] == l);
                    }
                }
                if self@.contains(l) {
                    let k = choose|k: int| 0 <= k < s.len() && self@[k] == l;
                    if k == i {
                        assert(s[j as int] == l);
                    } else if k == j {
                        assert(s[i as int] == l);
                    } else {
                        assert(s[k] == l);
                    }
                }
            }
            if lits_distinct(s) {
                assert forall|x: int, y: int| 0 <= x < y < self@.len() implies self@[x] != self@[y] by {
                    let sx = if x == i { j as int } else if x == j { i as int } else { x };
                    let sy = if y == i { j as int } else if y == j { i as int } else { y };
                    assert(self@[x] == s[sx]);
                    assert(self@[y] == s[sy]);
                    if sx < sy {
                        assert(s[sx] != s[sy]);
                    } else {
                        assert(s[sy] != s[sx]);
                    }
                }
            }
        }
    }
}

} // verus!
