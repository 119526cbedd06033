//! A per-variable record: its value, the clauses
//! that watch each of its literals (as positions in a clause arena), its
//! occurrence counts, the clause that forced it and its decision level.
use vstd::prelude::*;

verus! {

/// The value of a variable.
#[derive(Debug, Copy, Clone, PartialEq, Eq, Structural)]
pub enum VariableState {
    True,
    False,
    Open,
}

/// A variable with the clauses that watch its positive and its negative
/// literal.
#[derive(Debug)]
pub struct Variable {
    pub name: usize,
    pub state: VariableState,
    pub watched_pos: Vec<usize>,
    pub watched_neg: Vec<usize>,
    pub occurences: usize,
    pub occurences_positive: usize,
    pub occurences_negative: usize,
    pub antecedent: Option<usize>,
    pub decision_level: Option<usize>,
}

/// The list without its first occurrence of `item`, if there is one.
pub open spec fn without_first(s: Seq<usize>, item: usize) -> Seq<usize> {
    if s.contains(item) {
        let i = choose|i: int| 0 <= i < s.len() && s[i] == item && forall|j: int| 0 <= j < i ==> s[j] != item;
        s.remove(i)
    } else {
        s
    }
}

/// Removes the first occurrence of `item`, if there is one.
fn vec_remove(vec: &mut Vec<usize>, item: usize)
    ensures
        final(vec)@ == without_first(old(vec)@, item),
{
    let ghost s = vec@;
    let mut i: usize = 0;
    while i < vec.len()
        invariant
            vec@ == s,
            s == old(vec)@,
            i <= s.len(),
            forall|j: int| 0 <= j < i ==> s[j] != item,
        decreases vec.len() - i,
    {
        if vec[i] == item {
            proof {
                assert(s.contains(item));
                let k = choose|i: int| 0 <= i < s.len() && s[i] == item && forall|j: int| 0 <= j < i ==> s[j] != item;
                assert(0 <= i < s.len() && s[i as int] == item && forall|j: int| 0 <= j < i ==> s[j] != item);
                if k < i {
                    assert(s[k] != item);
                }
                if k > i {
                    assert(s[i as int] != item);
                }
                assert(k == i);
                assert(without_first(s, item) == s.remove(i as int));
            }
            vec.remove(i);
            return;
        }
        i = i + 1;
    }
    proof {
        assert(!s.contains(item)) by {
            if s.contains(item) {
                let k = choose|k: int| 0 <= k < s.len() && s[k] == item;
            }
        }
    }
}

impl Variable {
    /// An open variable that no clause watches yet.
    pub fn new(name: usize) -> (r: Variable)
        ensures
            r.name == name,
            r.state == VariableState::Open,
            r.watched_pos@.len() == 0,
            r.watched_neg@.len() == 0,
            r.occurences == 0,
            r.occurences_positive == 0,
            r.occurences_negative == 0,
            r.antecedent.is_none(),
            r.decision_level.is_none(),
    {
        Variable {
            name: name,
            state: VariableState::Open,
            watched_neg: Vec::new(),
            watched_pos: Vec::new(),
            occurences: 0,
            occurences_positive: 0,
            occurences_negative: 0,
            antecedent: None,
            decision_level: None,
        }
    }

    /// Assigns the value, with the forcing clause and the decision level.
    /// Fails (`None`) where the variable holds the other value; otherwise
    /// returns the clauses that watch the literal made false.
    pub fn set(&mut self, to_value: bool, antecedent: Option<usize>, dl: usize) -> (r: Option<Vec<usize>>)
        ensures
            (old(self).state == VariableState::True && !to_value) || (old(self).state == VariableState::False && to_value)
                ==> r.is_none() && final(self).state == old(self).state && final(self).antecedent == old(self).antecedent
                && final(self).decision_level == old(self).decision_level,
            !((old(self).state == VariableState::True && !to_value) || (old(self).state == VariableState::False && to_value))
                ==> {
                &&& final(self).state == (if to_value { VariableState::True } else { VariableState::False })
                &&& final(self).antecedent == antecedent
                &&& final(self).decision_level == Some(dl)
                &&& r.is_some()
                &&& r.unwrap()@ == (if to_value { old(self).watched_neg@ } else { old(self).watched_pos@ })
            },
            final(self).name == old(self).name,
            final(self).watched_pos == old(self).watched_pos,
            final(self).watched_neg == old(self).watched_neg,
            final(self).occurences == old(self).occurences,
            final(self).occurences_positive == old(self).occurences_positive,
            final(self).occurences_negative == old(self).occurences_negative,
    {
        match (to_value, self.state) {
            (true, VariableState::False) => None,
            (false, VariableState::True) => None,
            (true, _) => {
                self.state = VariableState::True;
                self.antecedent = antecedent;
                self.decision_level = Some(dl);
                Some(self.watched_neg.clone())
            },
            (false, _) => {
                self.state = VariableState::False;
                self.antecedent = antecedent;
                self.decision_level = Some(dl);
                Some(self.watched_pos.clone())
            },
        }
    }

    /// Makes the variable open again, with no forcing clause and no level.
    pub fn unset(&mut self)
        ensures
            final(self).state == VariableState::Open,
            final(self).antecedent.is_none(),
            final(self).decision_level.is_none(),
            final(self).name == old(self).name,
            final(self).watched_pos == old(self).watched_pos,
            final(self).watched_neg == old(self).watched_neg,
            final(self).occurences == old(self).occurences,
            final(self).occurences_positive == old(self).occurences_positive,
            final(self).occurences_negative == old(self).occurences_negative,
    {
        self.state = VariableState::Open;
        self.antecedent = None;
        self.decision_level = None;
    }

    /// Adds the clause to the watchers of the literal of the given sign.
    pub fn watch(&mut self, sign: bool, clause: usize)
        ensures
            sign ==> final(self).watched_pos@ == old(self).watched_pos@.push(clause) && final(self).watched_neg
                == old(self).watched_neg,
            !sign ==> final(self).watched_neg@ == old(self).watched_neg@.push(clause) && final(self).watched_pos
                == old(self).watched_pos,
            final(self).state == old(self).state,
    {
        if sign {
            self.watched_pos.push(clause);
        } else {
            self.watched_neg.push(clause);
        }
    }

    /// Removes the first watch of the clause on the literal of the given
    /// sign.
    pub fn unwatch(&mut self, sign: bool, clause: usize)
        ensures
            sign ==> final(self).watched_pos@ == without_first(old(self).watched_pos@, clause) && final(self).watched_neg
                == old(self).watched_neg,
            !sign ==> final(self).watched_neg@ == without_first(old(self).watched_neg@, clause) && final(self).watched_pos
                == old(self).watched_pos,
            final(self).state == old(self).state,
    {
        if sign {
            vec_remove(&mut self.watched_pos, clause)
        } else {
            vec_remove(&mut self.watched_neg, clause)
        }
    }
}

} // verus!
