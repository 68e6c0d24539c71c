//! Labeled transitions from a state to the states of its sub-components.
use vstd::prelude::*;

use crate::Polarity;

verus! {

/// A decomposition label. `pol` is the variance of the slot: `Neg` where going
/// through it flips polarity (a function's domain), `Pos` where it does not.
#[derive(Clone, Copy, Debug, PartialEq, Eq, Structural)]
pub struct Symbol {
    pub label: u64,
    pub pol: Polarity,
}

/// An edge from a state, through `symbol`, to the state at index `target`.
#[derive(Clone, Copy, Debug, PartialEq, Eq, Structural)]
pub struct Transition {
    pub symbol: Symbol,
    pub target: usize,
}

/// Position of the transition labeled `label`, if there is one.
pub open spec fn trans_index(t: Seq<Transition>, label: u64) -> Option<int> {
    if exists|i: int| 0 <= i < t.len() && (#[trigger] t[i]).symbol.label == label {
        Some(choose|i: int| 0 <= i < t.len() && (#[trigger] t[i]).symbol.label == label)
    } else {
        None
    }
}

/// No two transitions share a label.
pub open spec fn labels_unique(t: Seq<Transition>) -> bool {
    forall|i: int, j: int|
        0 <= i < t.len() && 0 <= j < t.len() && i != j ==> (#[trigger] t[i]).symbol.label
            != (#[trigger] t[j]).symbol.label
}

/// Finds the transition labeled `label`.
pub fn find_transition(t: &Vec<Transition>, label: u64) -> (r: Option<Transition>)
    requires
        labels_unique(t@),
    ensures
        match trans_index(t@, label) {
            Some(i) => r == Some(t@[i]),
            None => r is None,
        },
{
    let mut i: usize = 0;
    while i < t.len()
        invariant
            i <= t@.len(),
            labels_unique(t@),
            forall|j: int| 0 <= j < i ==> (#[trigger] t@[j]).symbol.label != label,
        decreases t@.len() - i,
    {
        if t[i].symbol.label == label {
            assert(trans_index(t@, label) == Some(i as int));
            return Some(t[i]);
        }
        i = i + 1;
    }
    None
}

} // verus!
