use vstd::prelude::*;

use priority_queue::PriorityQueue;

use crate::clause::lits_wf;
use crate::literal::Literal;

verus! {

/// The priority of a variable in the decision queue: whether it is open
/// (unassigned), its number of occurrences, the variable itself, and its
/// numbers of positive and of negative occurrences. Tuples compare
/// lexicographically, so an open variable comes before every assigned one,
/// then a higher count comes first, and ties go to the higher variable.
pub type Priority = (bool, usize, usize, usize, usize);

#[verifier::external_type_specification]
#[verifier::external_body]
#[verifier::reject_recursive_types(I)]
#[verifier::reject_recursive_types(P)]
#[verifier::reject_recursive_types(H)]
pub struct ExPriorityQueue<I, P, H>(PriorityQueue<I, P, H>);

/// The items of a decision queue with their priorities.
pub uninterp spec fn queue_entries(q: PriorityQueue<usize, Priority>) -> Map<usize, Priority>;

/// `a` comes strictly before `b` in the lexicographic order of tuples,
/// with `false < true`.
pub open spec fn prio_lt(a: Priority, b: Priority) -> bool {
    if a.0 != b.0 {
        !a.0 && b.0
    } else if a.1 != b.1 {
        a.1 < b.1
    } else if a.2 != b.2 {
        a.2 < b.2
    } else if a.3 != b.3 {
        a.3 < b.3
    } else {
        a.4 < b.4
    }
}

/// Relies on PriorityQueue::new: the new queue is empty.
#[verifier::external_body]
fn queue_new() -> (r: PriorityQueue<usize, Priority>)
    ensures
        queue_entries(r).dom() =~= Set::empty(),
{
    PriorityQueue::new()
}

/// Relies on PriorityQueue::get: the priority of the item, if it is queued.
#[verifier::external_body]
fn queue_get(q: &PriorityQueue<usize, Priority>, item: usize) -> (r: Option<Priority>)
    ensures
        r == (if queue_entries(*q).contains_key(item) {
            Some(queue_entries(*q)[item])
        } else {
            None
        }),
{
    q.get(&item).map(|(_, p)| *p)
}

/// Relies on PriorityQueue::push: the item is queued with the priority,
/// replacing its former priority, and the other items stay.
#[verifier::external_body]
fn queue_push(q: &mut PriorityQueue<usize, Priority>, item: usize, priority: Priority)
    ensures
        queue_entries(*final(q)) == queue_entries(*old(q)).insert(item, priority),
{
    q.push(item, priority);
}

/// Relies on PriorityQueue::peek: an item of greatest priority, or `None`
/// for an empty queue.
#[verifier::external_body]
fn queue_peek(q: &PriorityQueue<usize, Priority>) -> (r: Option<(usize, Priority)>)
    ensures
        r.is_none() <==> queue_entries(*q).dom() =~= Set::empty(),
        r.is_some() ==> queue_entries(*q).contains_key(r.unwrap().0) && queue_entries(*q)[r.unwrap().0]
            == r.unwrap().1,
        r.is_some() ==> forall|v: usize| #[trigger]
            queue_entries(*q).contains_key(v) ==> !prio_lt(r.unwrap().1, queue_entries(*q)[v]),
{
    q.peek().map(|(i, p)| (*i, *p))
}

/// Adds one, but stays at the largest value.
pub open spec fn bump(x: usize) -> usize {
    if x == usize::MAX { x } else { (x + 1) as usize }
}

/// The priorities after one more occurrence of the literal.
pub open spec fn occur(m: Map<usize, Priority>, l: Literal) -> Map<usize, Priority> {
    let v = l.spec_var() as usize;
    let pos: usize = if l.spec_sign() { 1 } else { 0 };
    let neg: usize = if l.spec_sign() { 0 } else { 1 };
    if m.contains_key(v) {
        let p = m[v];
        m.insert(v, (p.0, bump(p.1), p.2, if l.spec_sign() { bump(p.3) } else { p.3 }, if l.spec_sign() { p.4 } else { bump(p.4) }))
    } else {
        m.insert(v, (true, 1, v, pos, neg))
    }
}

/// The priorities after an occurrence of each literal, in order.
pub open spec fn occur_all(m: Map<usize, Priority>, lits: Seq<Literal>) -> Map<usize, Priority>
    decreases lits.len(),
{
    if lits.len() == 0 {
        m
    } else {
        occur(occur_all(m, lits.drop_last()), lits.last())
    }
}

/// The literal suggested for a variable: positive unless it occurs more
/// often negatively.
pub open spec fn suggested(v: usize, p: Priority) -> Literal {
    if p.3 >= p.4 { Literal(v as i64) } else { Literal((-(v as i64)) as i64) }
}

/// Chooses the next decision: an open variable of greatest priority, with
/// the polarity in which it occurs more often.
#[derive(Debug)]
pub struct DecisionProvider {
    queue: PriorityQueue<usize, Priority>,
}

impl View for DecisionProvider {
    type V = Map<usize, Priority>;

    closed spec fn view(&self) -> Map<usize, Priority> {
        queue_entries(self.queue)
    }
}

impl DecisionProvider {
    /// Each queued variable is a variable of some literal, and its priority
    /// names it.
    pub open spec fn wf(&self) -> bool {
        forall|v: usize| #[trigger] self@.contains_key(v) ==> {
            &&& self@[v].2 == v
            &&& Literal(v as i64).wf()
            &&& 1 <= v <= i64::MAX
        }
    }

    pub fn new() -> (r: DecisionProvider)
        ensures
            r.wf(),
            r@.dom() =~= Set::empty(),
    {
        DecisionProvider { queue: queue_new() }
    }

    /// Counts one occurrence of each literal; a variable seen for the first
    /// time is queued as open.
    pub fn new_clause(&mut self, literals: &Vec<Literal>)
        requires
            old(self).wf(),
            lits_wf(literals@),
        ensures
            final(self).wf(),
            final(self)@ == occur_all(old(self)@, literals@),
    {
        let mut i: usize = 0;
        while i < literals.len()
            invariant
                i <= literals@.len(),
                self.wf(),
                lits_wf(literals@),
                self@ == occur_all(old(self)@, literals@.subrange(0, i as int)),
            decreases literals.len() - i,
        {
            let literal = literals[i];
            let v = literal.var();
            let pos: usize = if literal.sign() { 1 } else { 0 };
            let neg: usize = if literal.sign() { 0 } else { 1 };
            match queue_get(&self.queue, v) {
                None => {
                    queue_push(&mut self.queue, v, (true, 1, v, pos, neg));
                },
                Some(p) => {
                    let np = (
                        p.0,
                        p.1.saturating_add(1),
                        p.2,
                        p.3.saturating_add(pos),
                        p.4.saturating_add(neg),
                    );
                    queue_push(&mut self.queue, v, np);
                },
            }
            proof {
                assert(literals@.subrange(0, i + 1).drop_last() =~= literals@.subrange(0, i as int));
                assert(literals@.subrange(0, i + 1).last() == literal);
            }
            i = i + 1;
        }
        assert(literals@.subrange(0, literals@.len() as int) =~= literals@);
    }

    /// The literal to decide next, or `None` when no variable is open.
    pub fn get_next(&self) -> (r: Option<Literal>)
        requires
            self.wf(),
        ensures
            r.is_none() <==> forall|v: usize| #[trigger] self@.contains_key(v) ==> !self@[v].0,
            r.is_some() ==> exists|v: usize|
                {
                    &&& #[trigger] self@.contains_key(v)
                    &&& self@[v].0
                    &&& r.unwrap() == suggested(v, self@[v])
                    &&& forall|u: usize| #[trigger]
                        self@.contains_key(u) ==> !prio_lt(self@[v], self@[u])
                },
            r.is_some() ==> r.unwrap().wf(),
    {
        match queue_peek(&self.queue) {
            None => None,
            Some((v, p)) => {
                if !p.0 {
                    proof {
                        assert forall|u: usize| #[trigger] self@.contains_key(u) implies !self@[u].0 by {
                            assert(!prio_lt(p, self@[u]));
                        }
                    }
                    None
                } else {
                    proof {
                        assert(self@.contains_key(v));
                    }
                    let lit = if p.3 >= p.4 { Literal(v as i64) } else { Literal(-(v as i64)) };
                    Some(lit)
                }
            },
        }
    }

    /// Whether the variable is queued.
    pub fn contains(&self, var: usize) -> (r: bool)
        ensures
            r == self@.contains_key(var),
    {
        queue_get(&self.queue, var).is_some()
    }

    /// Marks the variable open again.
    pub fn unset(&mut self, var: usize)
        requires
            old(self).wf(),
        ensures
            final(self).wf(),
            final(self)@ == (if old(self)@.contains_key(var) {
                old(self)@.insert(var, (true, old(self)@[var].1, old(self)@[var].2, old(self)@[var].3, old(self)@[var].4))
            } else {
                old(self)@
            }),
    {
        if let Some(p) = queue_get(&self.queue, var) {
            queue_push(&mut self.queue, var, (true, p.1, p.2, p.3, p.4));
        }
    }

    /// Marks the variable assigned.
    pub fn set(&mut self, var: usize)
        requires
            old(self).wf(),
        ensures
            final(self).wf(),
            final(self)@ == (if old(self)@.contains_key(var) {
                old(self)@.insert(var, (false, old(self)@[var].1, old(self)@[var].2, old(self)@[var].3, old(self)@[var].4))
            } else {
                old(self)@
            }),
    {
        if let Some(p) = queue_get(&self.queue, var) {
            queue_push(&mut self.queue, var, (false, p.1, p.2, p.3, p.4));
        }
    }
}

} // verus!

verus! {

/// Counting occurrences queues exactly the variables of the literals, besides
/// those queued already.
pub proof fn lemma_occur_all_dom(m: Map<usize, Priority>, lits: Seq<Literal>)
    ensures
        forall|v: usize| #[trigger] occur_all(m, lits).contains_key(v) <==> (m.contains_key(v) || exists|i: int|
            0 <= i < lits.len() && (#[trigger] lits[i]).spec_var() as usize == v),
    decreases lits.len(),
{
    if lits.len() > 0 {
        let d = lits.drop_last();
        lemma_occur_all_dom(m, d);
        let last = lits.last();
        assert(occur_all(m, lits) == occur(occur_all(m, d), last));
        assert forall|v: usize| #[trigger] occur_all(m, lits).contains_key(v) <==> (occur_all(m, d).contains_key(v) || v == last.spec_var() as usize) by {}
        assert forall|v: usize| #[trigger] occur_all(m, lits).contains_key(v) <==> (m.contains_key(v) || exists|i: int|
            0 <= i < lits.len() && (#[trigger] lits[i]).spec_var() as usize == v) by {
            if exists|i: int| 0 <= i < d.len() && (#[trigger] d[i]).spec_var() as usize == v {
                let i = choose|i: int| 0 <= i < d.len() && (#[trigger] d[i]).spec_var() as usize == v;
                assert(lits[i] == d[i]);
            }
            if exists|i: int| 0 <= i < lits.len() && (#[trigger] lits[i]).spec_var() as usize == v {
                let i = choose|i: int| 0 <= i < lits.len() && (#[trigger] lits[i]).spec_var() as usize == v;
                if i < lits.len() - 1 {
                    assert(d[i] == lits[i]);
                }
            }
            if v == last.spec_var() as usize {
                assert(lits[lits.len() - 1] == last);
            }
        }
    }
}

} // verus!
