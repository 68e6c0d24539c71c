//! A polarized type automaton for structural subtyping by biunification.
use vstd::prelude::*;

pub mod auto;
pub mod biunify;
pub mod cons;
pub mod flow;
pub mod trans;

verus! {

/// Whether a state produces values (`Pos`) or consumes them (`Neg`).
#[derive(Clone, Copy, Debug, PartialEq, Eq, Structural)]
pub enum Polarity {
    Neg,
    Pos,
}

/// The opposite polarity.
pub open spec fn negated(p: Polarity) -> Polarity {
    match p {
        Polarity::Neg => Polarity::Pos,
        Polarity::Pos => Polarity::Neg,
    }
}

/// Polarity reached by going through a position of polarity `a` and then one of
/// polarity `b`.
pub open spec fn composed(a: Polarity, b: Polarity) -> Polarity {
    match a {
        Polarity::Neg => negated(b),
        Polarity::Pos => b,
    }
}

impl Polarity {
    pub fn neg(self) -> (r: Polarity)
        ensures
            r == negated(self),
    {
        match self {
            Polarity::Neg => Polarity::Pos,
            Polarity::Pos => Polarity::Neg,
        }
    }

    pub fn mul(self, other: Polarity) -> (r: Polarity)
        ensures
            r == composed(self, other),
    {
        match self {
            Polarity::Neg => other.neg(),
            Polarity::Pos => other,
        }
    }
}

/// Negating twice gives back the polarity, and `Pos` is the identity of
/// composition.
pub proof fn lemma_polarity_algebra(p: Polarity)
    ensures
        negated(negated(p)) == p,
        composed(Polarity::Pos, p) == p,
{
}

/// The host's vocabulary of type constructors.
pub trait TypeSystem {
    type Constructor: cons::Constructor;
}

/// A type system whose constructors are `cons::Shape`s.
pub struct Shapes;

impl TypeSystem for Shapes {
    type Constructor = cons::Shape;
}

} // verus!
