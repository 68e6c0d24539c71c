//! Storage of states, addressed by stable indices.
use vstd::prelude::*;

use crate::cons::{added_neg, added_pos, joined, met, Constructor, ConstructorSet};
use crate::flow::FlowSet;
use crate::trans::{find_transition, labels_unique, trans_index, Symbol, Transition};
use crate::{composed, Polarity, TypeSystem};

verus! {

/// Handle of a state within one automaton.
#[derive(Clone, Copy, Debug, PartialEq, Eq, Structural)]
pub struct StateId {
    pub index: usize,
}

/// One node of the type graph.
pub struct State<C: Constructor> {
    pub pol: Polarity,
    pub cons: ConstructorSet<C>,
    pub trans: Vec<Transition>,
    pub flow: FlowSet,
}

/// All the states of one type-system instance.
pub struct Automaton<T: TypeSystem> {
    pub states: Vec<State<T::Constructor>>,
}

impl<T: TypeSystem> Automaton<T> {
    pub open spec fn len(&self) -> int {
        self.states@.len() as int
    }

    pub open spec fn valid(&self, id: StateId) -> bool {
        id.index < self.len()
    }

    pub open spec fn pol(&self, i: int) -> Polarity {
        self.states@[i].pol
    }

    pub open spec fn cons(&self, i: int) -> Seq<T::Constructor> {
        self.states@[i].cons@
    }

    pub open spec fn trans(&self, i: int) -> Seq<Transition> {
        self.states@[i].trans@
    }

    pub open spec fn flow(&self, i: int) -> Set<usize> {
        self.states@[i].flow@
    }

    /// Whether `p` flows into `n`.
    pub open spec fn flows_to(&self, p: usize, n: usize) -> bool {
        self.flow(p as int).contains(n)
    }

    /// The flow relation, as the flow set of each state.
    pub open spec fn flow_relation(&self) -> Seq<Set<usize>> {
        Seq::new(self.len() as nat, |i: int| self.flow(i))
    }

    /// Same states, polarities, constructors and transitions; flows may differ.
    pub open spec fn same_states(&self, other: Self) -> bool {
        &&& self.len() == other.len()
        &&& forall|i: int|
            0 <= i < self.len() ==> {
                &&& #[trigger] self.pol(i) == other.pol(i)
                &&& self.cons(i) == other.cons(i)
                &&& self.trans(i) == other.trans(i)
            }
    }

    /// Flow edges join states of opposite polarity, both ends agree, and every
    /// index held refers to a state.
    pub open spec fn wf(&self) -> bool {
        &&& self.len() <= usize::MAX
        &&& forall|i: int| 0 <= i < self.len() ==> (#[trigger] self.states@[i]).cons.wf()
        &&& forall|i: int| 0 <= i < self.len() ==> labels_unique(#[trigger] self.trans(i))
        &&& forall|i: int, k: int|
            0 <= i < self.len() && 0 <= k < self.trans(i).len() ==> {
                let t = #[trigger] self.trans(i)[k];
                &&& t.target < self.len()
                &&& self.pol(t.target as int) == composed(self.pol(i), t.symbol.pol)
            }
        &&& forall|i: usize, j: usize|
            i < self.len() && #[trigger] self.flow(i as int).contains(j) ==> {
                &&& j < self.len()
                &&& self.pol(j as int) != self.pol(i as int)
                &&& self.flow(j as int).contains(i)
            }
    }

    pub fn new() -> (r: Self)
        ensures
            r.wf(),
            r.len() == 0,
    {
        Automaton { states: Vec::new() }
    }

    pub fn state_count(&self) -> (r: usize)
        ensures
            r == self.len(),
    {
        self.states.len()
    }

    /// Creates a fresh state of polarity `pol`, with no constructors,
    /// transitions or flow.
    pub fn add_state(&mut self, pol: Polarity) -> (id: StateId)
        requires
            old(self).wf(),
            old(self).len() < usize::MAX,
        ensures
            final(self).wf(),
            id.index == old(self).len(),
            final(self).len() == old(self).len() + 1,
            final(self).states@.drop_last() == old(self).states@,
            final(self).pol(id.index as int) == pol,
            final(self).cons(id.index as int) == Seq::<T::Constructor>::empty(),
            final(self).trans(id.index as int) == Seq::<Transition>::empty(),
            final(self).flow(id.index as int) == Set::<usize>::empty(),
    {
        let id = StateId { index: self.states.len() };
        let st = State { pol, cons: ConstructorSet::new(), trans: Vec::new(), flow: FlowSet::new() };
        self.states.push(st);
        proof {
            assert(self.cons(id.index as int) =~= Seq::<T::Constructor>::empty());
            assert(self.trans(id.index as int) =~= Seq::<Transition>::empty());
            let a = *old(self);
            assert(forall|i: int| 0 <= i < a.len() ==> self.states@[i] == a.states@[i]);
            assert forall|i: int| 0 <= i < self.len() implies (#[trigger] self.states@[i]).cons.wf() by {
                if i < a.len() {
                    assert(a.states@[i].cons.wf());
                }
            }
            assert forall|i: int| 0 <= i < self.len() implies labels_unique(#[trigger] self.trans(i)) by {
                if i < a.len() {
                    assert(labels_unique(a.trans(i)));
                }
            }
            assert forall|i: usize, j: usize|
                i < self.len() && #[trigger] self.flow(i as int).contains(j) implies {
                &&& j < self.len()
                &&& self.pol(j as int) != self.pol(i as int)
                &&& self.flow(j as int).contains(i)
            } by {
                assert(i < a.len());
                assert(a.flow(i as int).contains(j));
                assert(self.states@[j as int] == a.states@[j as int]);
            }
            assert forall|i: int, k: int|
                0 <= i < self.len() && 0 <= k < self.trans(i).len() implies {
                let t = #[trigger] self.trans(i)[k];
                &&& t.target < self.len()
                &&& self.pol(t.target as int) == composed(self.pol(i), t.symbol.pol)
            } by {
                assert(i < a.len());
                assert(a.trans(i) == self.trans(i));
                let t = a.trans(i)[k];
                assert(self.states@[t.target as int] == a.states@[t.target as int]);
            }
        }
        id
    }

    /// The state `id`.
    pub fn index(&self, id: StateId) -> (r: &State<T::Constructor>)
        requires
            self.valid(id),
        ensures
            *r == self.states@[id.index as int],
    {
        &self.states[id.index]
    }

    pub fn polarity(&self, id: StateId) -> (r: Polarity)
        requires
            self.valid(id),
        ensures
            r == self.pol(id.index as int),
    {
        self.states[id.index].pol
    }

    /// The constructors known of state `id`.
    pub fn constructors(&self, id: StateId) -> (r: &ConstructorSet<T::Constructor>)
        requires
            self.valid(id),
        ensures
            r@ == self.cons(id.index as int),
    {
        &self.states[id.index].cons
    }

    /// The flow set of state `id`.
    pub fn flows(&self, id: StateId) -> (r: &FlowSet)
        requires
            self.valid(id),
        ensures
            r@ == self.flow(id.index as int),
    {
        &self.states[id.index].flow
    }

    /// Adds a positive fact about the shape of state `id`.
    pub fn add_pos(&mut self, id: StateId, con: T::Constructor)
        requires
            old(self).wf(),
            old(self).valid(id),
        ensures
            final(self).wf(),
            cons_changed(*old(self), *final(self), id.index),
            final(self).cons(id.index as int) == added_pos(old(self).cons(id.index as int), con),
    {
        self.states[id.index].cons.add_pos(con);
        proof {
            lemma_cons_changed_wf(*old(self), *self, id.index);
        }
    }

    /// Adds a negative fact about the shape of state `id`.
    pub fn add_neg(&mut self, id: StateId, con: T::Constructor)
        requires
            old(self).wf(),
            old(self).valid(id),
        ensures
            final(self).wf(),
            cons_changed(*old(self), *final(self), id.index),
            final(self).cons(id.index as int) == added_neg(old(self).cons(id.index as int), con),
    {
        self.states[id.index].cons.add_neg(con);
        proof {
            lemma_cons_changed_wf(*old(self), *self, id.index);
        }
    }

    /// Folds every constructor of `other` into state `id` positively.
    pub fn join_cons(&mut self, id: StateId, other: &ConstructorSet<T::Constructor>)
        requires
            old(self).wf(),
            old(self).valid(id),
        ensures
            final(self).wf(),
            cons_changed(*old(self), *final(self), id.index),
            final(self).cons(id.index as int) == joined(old(self).cons(id.index as int), other@),
    {
        self.states[id.index].cons.join(other);
        proof {
            lemma_cons_changed_wf(*old(self), *self, id.index);
        }
    }

    /// Folds every constructor of `other` into state `id` negatively.
    pub fn meet_cons(&mut self, id: StateId, other: &ConstructorSet<T::Constructor>)
        requires
            old(self).wf(),
            old(self).valid(id),
        ensures
            final(self).wf(),
            cons_changed(*old(self), *final(self), id.index),
            final(self).cons(id.index as int) == met(old(self).cons(id.index as int), other@),
    {
        self.states[id.index].cons.meet(other);
        proof {
            lemma_cons_changed_wf(*old(self), *self, id.index);
        }
    }

    /// The transition of state `id` labeled `label`, if any.
    pub fn transition(&self, id: StateId, label: u64) -> (r: Option<Transition>)
        requires
            self.wf(),
            self.valid(id),
        ensures
            match trans_index(self.trans(id.index as int), label) {
                Some(k) => r == Some(self.trans(id.index as int)[k]),
                None => r is None,
            },
    {
        find_transition(&self.states[id.index].trans, label)
    }

    /// Adds the transition `symbol` from `id` to `target`, unless `id` already
    /// has one with that label; returns whether it was added.
    pub fn add_transition(&mut self, id: StateId, symbol: Symbol, target: StateId) -> (added: bool)
        requires
            old(self).wf(),
            old(self).valid(id),
            old(self).valid(target),
            old(self).pol(target.index as int) == composed(old(self).pol(id.index as int), symbol.pol),
        ensures
            final(self).wf(),
            added == (trans_index(old(self).trans(id.index as int), symbol.label) is None),
            final(self).len() == old(self).len(),
            forall|i: int|
                0 <= i < old(self).len() ==> {
                    &&& #[trigger] final(self).pol(i) == old(self).pol(i)
                    &&& final(self).cons(i) == old(self).cons(i)
                    &&& final(self).flow(i) == old(self).flow(i)
                    &&& final(self).trans(i) == if added && i == id.index {
                        old(self).trans(i).push(Transition { symbol, target: target.index })
                    } else {
                        old(self).trans(i)
                    }
                },
    {
        let found = find_transition(&self.states[id.index].trans, symbol.label);
        if found.is_some() {
            return false;
        }
        let ghost a = *old(self);
        self.states[id.index].trans.push(Transition { symbol, target: target.index });
        proof {
            assert forall|i: int| 0 <= i < self.len() implies {
                &&& #[trigger] self.pol(i) == a.pol(i)
                &&& self.cons(i) == a.cons(i)
                &&& self.flow(i) == a.flow(i)
            } by {}
            assert forall|i: int| 0 <= i < self.len() implies (#[trigger] self.states@[i]).cons.wf() by {
                assert(self.cons(i) == a.cons(i));
                assert(a.states@[i].cons.wf());
            }
            assert forall|i: int| 0 <= i < self.len() implies labels_unique(#[trigger] self.trans(i)) by {
                assert(labels_unique(a.trans(i)));
                if i == id.index {
                    assert(forall|k: int| 0 <= k < a.trans(i).len() ==> (#[trigger] a.trans(i)[k]).symbol.label != symbol.label);
                }
            }
            assert forall|i: int, k: int| 0 <= i < self.len() && 0 <= k < self.trans(i).len() implies {
                let t = #[trigger] self.trans(i)[k];
                &&& t.target < self.len()
                &&& self.pol(t.target as int) == composed(self.pol(i), t.symbol.pol)
            } by {
                if i != id.index || k < a.trans(i).len() {
                    let t = a.trans(i)[k];
                    assert(self.pol(t.target as int) == a.pol(t.target as int));
                }
            }
            assert forall|i: usize, j: usize| i < self.len() && #[trigger] self.flow(i as int).contains(j) implies {
                &&& j < self.len()
                &&& self.pol(j as int) != self.pol(i as int)
                &&& self.flow(j as int).contains(i)
            } by {
                assert(a.flow(i as int).contains(j));
                assert(self.pol(j as int) == a.pol(j as int));
                assert(self.flow(j as int) == a.flow(j as int));
            }
        }
        true
    }
}

/// `b` is `a` where only the constructors of state `id` may differ.
pub open spec fn cons_changed<T: TypeSystem>(a: Automaton<T>, b: Automaton<T>, id: usize) -> bool {
    &&& b.len() == a.len()
    &&& forall|i: int|
        0 <= i < a.len() ==> {
            &&& #[trigger] b.pol(i) == a.pol(i)
            &&& b.trans(i) == a.trans(i)
            &&& b.flow(i) == a.flow(i)
            &&& i != id ==> b.cons(i) == a.cons(i)
        }
}

proof fn lemma_cons_changed_wf<T: TypeSystem>(a: Automaton<T>, b: Automaton<T>, id: usize)
    requires
        a.wf(),
        cons_changed(a, b, id),
        b.states@[id as int].cons.wf(),
    ensures
        b.wf(),
{
    assert forall|i: int| 0 <= i < b.len() implies (#[trigger] b.states@[i]).cons.wf() by {
        assert(b.pol(i) == a.pol(i));
        assert(a.states@[i].cons.wf());
    }
    assert forall|i: int| 0 <= i < b.len() implies labels_unique(#[trigger] b.trans(i)) by {
        assert(b.pol(i) == a.pol(i));
        assert(labels_unique(a.trans(i)));
    }
    assert forall|i: int, k: int| 0 <= i < b.len() && 0 <= k < b.trans(i).len() implies {
        let t = #[trigger] b.trans(i)[k];
        &&& t.target < b.len()
        &&& b.pol(t.target as int) == composed(b.pol(i), t.symbol.pol)
    } by {
        assert(b.pol(i) == a.pol(i));
        let t = a.trans(i)[k];
        assert(b.pol(t.target as int) == a.pol(t.target as int));
    }
    assert forall|i: usize, j: usize| i < b.len() && #[trigger] b.flow(i as int).contains(j) implies {
        &&& j < b.len()
        &&& b.pol(j as int) != b.pol(i as int)
        &&& b.flow(j as int).contains(i)
    } by {
        assert(b.pol(i as int) == a.pol(i as int));
        assert(a.flow(i as int).contains(j));
        assert(b.pol(j as int) == a.pol(j as int));
    }
}

} // verus!
