use vstd::prelude::*;

verus! {

/// A literal written as a nonzero signed integer: its absolute value names
/// the variable and its sign the polarity.
#[derive(Copy, Clone, PartialEq, Eq, Structural, Debug, PartialOrd, Ord, Hash)]
pub struct Literal(pub i64);

impl Literal {
    /// A literal that names a variable: nonzero, and with an index that
    /// fits in a `usize`.
    pub open spec fn wf(self) -> bool {
        self.0 != 0 && self.0 != i64::MIN && 2 * self.spec_var() < usize::MAX
    }

    /// The variable of the literal.
    pub open spec fn spec_var(self) -> nat {
        if self.0 < 0 { (-self.0) as nat } else { self.0 as nat }
    }

    /// The polarity of the literal: `true` for a positive literal.
    pub open spec fn spec_sign(self) -> bool {
        self.0 > 0
    }

    /// The literal of the same variable with the other polarity.
    pub open spec fn spec_neg(self) -> Literal {
        Literal((-self.0) as i64)
    }

    /// The dense index of the literal: `2v` for a positive and `2v - 1` for
    /// a negative literal over variable `v`.
    pub open spec fn spec_index(self) -> nat {
        if self.0 > 0 { (2 * self.spec_var()) as nat } else { (2 * self.spec_var() - 1) as nat }
    }

    /// Whether the literal names a variable.
    pub fn is_valid(&self) -> (r: bool)
        ensures
            r == self.wf(),
    {
        if self.0 == 0 || self.0 == i64::MIN {
            return false;
        }
        let a: u64 = if self.0 < 0 { (-self.0) as u64 } else { self.0 as u64 };
        (a as u128) * 2 < (usize::MAX as u128)
    }

    /// The literal as written in a clause.
    pub fn new(num: &i64) -> (r: Literal)
        ensures
            r == Literal(*num),
    {
        Literal(*num)
    }

    pub fn index(&self) -> (r: usize)
        requires
            self.wf(),
        ensures
            r == self.spec_index(),
    {
        if self.sign() {
            self.0 as usize * 2
        } else {
            (-self.0) as usize * 2 - 1
        }
    }

    pub fn sign(&self) -> (r: bool)
        ensures
            r == self.spec_sign(),
    {
        self.0 > 0
    }

    pub fn var(&self) -> (r: usize)
        requires
            self.wf(),
        ensures
            r == self.spec_var(),
    {
        if self.0 < 0 {
            (-self.0) as usize
        } else {
            self.0 as usize
        }
    }

    /// The literal with the polarity flipped.
    pub fn negate(&self) -> (r: Literal)
        requires
            self.wf(),
        ensures
            r == self.spec_neg(),
            r.wf(),
            r.spec_var() == self.spec_var(),
            r.spec_sign() != self.spec_sign(),
    {
        Literal(-self.0)
    }

    /// Whether the variable's value, if it has one, makes the literal false.
    pub fn falsified_by(&self, var_val: Option<&bool>) -> (r: bool)
        ensures
            r == (var_val.is_some() && *var_val.unwrap() != self.spec_sign()),
    {
        match var_val {
            None => false,
            Some(val) => *val != self.sign(),
        }
    }

    /// Whether the variable's value, if it has one, makes the literal true.
    pub fn satisfied_by(&self, var_val: Option<&bool>) -> (r: bool)
        ensures
            r == (var_val.is_some() && *var_val.unwrap() == self.spec_sign()),
    {
        match var_val {
            None => false,
            Some(val) => *val == self.sign(),
        }
    }
}

} // verus!
