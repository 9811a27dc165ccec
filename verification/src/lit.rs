use vstd::prelude::*;

verus! {

/// A propositional variable, identified by its index. Index 0 is the constant.
#[derive(Clone, Copy, PartialEq, Eq, Structural, Debug, Hash)]
pub struct Var(pub u32);

/// A literal: a variable together with a polarity, encoded as
/// `2 * var + (if positive { 0 } else { 1 })`.
#[derive(Clone, Copy, PartialEq, Eq, Structural, Debug, Hash)]
pub struct Lit(pub u32);

impl Var {
    /// The constant variable.
    pub open spec fn constant_var() -> Var {
        Var(0)
    }

    /// `Var::new(x)` keeps the low 32 bits of `x`.
    pub fn new(x: usize) -> (v: Var)
        ensures
            v.0 == x as u32,
    {
        Var(x as u32)
    }

    /// The positive literal of this variable; the code is shifted left by
    /// one, so the top bit of the index is lost.
    pub fn lit(&self) -> (l: Lit)
        ensures
            l == Lit::spec_new(*self, true),
    {
        let v = self.0;
        assert((v << 1u32) == ((2 * v) as u32)) by (bit_vector);
        Lit(v << 1u32)
    }

    pub fn is_constant(&self) -> (b: bool)
        ensures
            b == (self.0 == 0),
    {
        self.0 == 0
    }
}

impl Lit {
    /// Code of the literal of `var` with the given polarity.
    pub open spec fn spec_new(var: Var, polarity: bool) -> Lit {
        Lit((2 * var.0 + if polarity { 0int } else { 1int }) as u32)
    }

    pub open spec fn spec_var(self) -> Var {
        Var((self.0 / 2) as u32)
    }

    pub open spec fn spec_polarity(self) -> bool {
        self.0 % 2 == 0
    }

    pub open spec fn spec_not(self) -> Lit {
        Lit(if self.0 % 2 == 0 { (self.0 + 1) as u32 } else { (self.0 - 1) as u32 })
    }

    pub fn new(var: Var, polarity: bool) -> (l: Lit)
        requires
            var.0 < 0x8000_0000,
        ensures
            l == Lit::spec_new(var, polarity),
    {
        Lit(var.0 + var.0 + if polarity { 0 } else { 1 })
    }

    pub fn var(&self) -> (v: Var)
        ensures
            v == self.spec_var(),
    {
        Var(self.0 / 2)
    }

    pub fn polarity(&self) -> (b: bool)
        ensures
            b == self.spec_polarity(),
    {
        self.0 % 2 == 0
    }

    /// The literal of the same variable with the opposite polarity.
    pub fn not(&self) -> (l: Lit)
        ensures
            l == self.spec_not(),
    {
        if self.0 % 2 == 0 {
            Lit(self.0 + 1)
        } else {
            Lit(self.0 - 1)
        }
    }

    /// Negates the literal when `c` holds.
    pub fn not_if(&self, c: bool) -> (l: Lit)
        ensures
            l == (if c { self.spec_not() } else { *self }),
    {
        if c {
            self.not()
        } else {
            *self
        }
    }

    /// The constant literal of value `polarity`: the constant variable is
    /// false, so the true literal is its negative one.
    pub fn constant(polarity: bool) -> (l: Lit)
        ensures
            l == Lit::spec_new(Var(0), !polarity),
    {
        Lit::new(Var(0), !polarity)
    }
}

/// Negation keeps the variable, flips the polarity, and is an involution.
pub proof fn lemma_not_properties(l: Lit)
    ensures
        l.spec_not().spec_var() == l.spec_var(),
        l.spec_not().spec_polarity() == !l.spec_polarity(),
        l.spec_not().spec_not() == l,
        l.spec_not() != l,
{
}

/// A literal is determined by its variable and polarity.
pub proof fn lemma_new_var_polarity(l: Lit)
    ensures
        l.spec_var().0 < 0x8000_0000,
        Lit::spec_new(l.spec_var(), l.spec_polarity()) == l,
{
}

/// Building a literal and reading back its parts gives the parts.
pub proof fn lemma_new_roundtrip(v: Var, p: bool)
    requires
        v.0 < 0x8000_0000,
    ensures
        Lit::spec_new(v, p).spec_var() == v,
        Lit::spec_new(v, p).spec_polarity() == p,
{
}

} // verus!
