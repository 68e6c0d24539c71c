//! The flow relation: a symmetric set of edges from positive to negative states.
use vstd::prelude::*;

use crate::auto::{Automaton, StateId};
use crate::trans::labels_unique;
use crate::{composed, Polarity, TypeSystem};

verus! {

#[verifier::external_type_specification]
#[verifier::external_body]
#[verifier::reject_recursive_types(A)]
#[verifier::reject_recursive_types(S)]
pub struct ExImHashSet<A, S>(im::HashSet<A, S>);

/// The elements held by a persistent hash set of state indices.
pub uninterp spec fn flow_contents(s: im::HashSet<usize>) -> Set<usize>;

/// Relies on im::HashSet::new: the new set is empty.
#[verifier::external_body]
fn empty_set() -> (r: im::HashSet<usize>)
    ensures
        flow_contents(r) == Set::<usize>::empty(),
{
    im::HashSet::new()
}

/// Relies on im::HashSet::insert: adds `v`, returning the old copy if `v` was held.
#[verifier::external_body]
fn set_insert(s: &mut im::HashSet<usize>, v: usize) -> (had: bool)
    ensures
        flow_contents(*final(s)) == flow_contents(*old(s)).insert(v),
        had == flow_contents(*old(s)).contains(v),
{
    s.insert(v).is_some()
}

/// Relies on im::HashSet::remove: takes `v` out, returning it if it was held.
#[verifier::external_body]
fn set_remove(s: &mut im::HashSet<usize>, v: usize) -> (had: bool)
    ensures
        flow_contents(*final(s)) == flow_contents(*old(s)).remove(v),
        had == flow_contents(*old(s)).contains(v),
{
    s.remove(&v).is_some()
}

/// Relies on im::HashSet::contains.
#[verifier::external_body]
fn set_contains(s: &im::HashSet<usize>, v: usize) -> (r: bool)
    ensures
        r == flow_contents(*s).contains(v),
{
    s.contains(&v)
}

/// Relies on im::HashSet::iter: visits every element once, in an unspecified order.
#[verifier::external_body]
fn set_elements(s: &im::HashSet<usize>) -> (r: Vec<usize>)
    ensures
        r@.to_set() == flow_contents(*s),
{
    s.iter().copied().collect()
}

/// A candidate or established flow edge from `pos` into `neg`.
#[derive(Clone, Copy, Debug)]
pub struct Pair {
    pub neg: StateId,
    pub pos: StateId,
}

/// The states of opposite polarity that one state flows to or from.
pub struct FlowSet {
    pub set: im::HashSet<usize>,
}

impl View for FlowSet {
    type V = Set<usize>;

    open spec fn view(&self) -> Set<usize> {
        flow_contents(self.set)
    }
}

impl FlowSet {
    pub fn new() -> (r: FlowSet)
        ensures
            r@ == Set::<usize>::empty(),
    {
        FlowSet { set: empty_set() }
    }

    /// The members, each once, in an unspecified order.
    pub fn iter(&self) -> (r: Vec<usize>)
        ensures
            r@.to_set() == self@,
    {
        set_elements(&self.set)
    }
}

/// `b` is `a` with the edge `pos -> neg` added, everything else unchanged.
pub open spec fn flow_added<T: TypeSystem>(a: Automaton<T>, b: Automaton<T>, pos: usize, neg: usize) -> bool {
    &&& b.same_states(a)
    &&& forall|i: int|
        0 <= i < a.len() ==> #[trigger] b.flow(i) == if i == pos as int {
            a.flow(i).insert(neg)
        } else if i == neg as int {
            a.flow(i).insert(pos)
        } else {
            a.flow(i)
        }
}

/// `b` is `a` with the edge `pos -> neg` taken out, everything else unchanged.
pub open spec fn flow_removed<T: TypeSystem>(a: Automaton<T>, b: Automaton<T>, pos: usize, neg: usize) -> bool {
    &&& b.same_states(a)
    &&& forall|i: int|
        0 <= i < a.len() ==> #[trigger] b.flow(i) == if i == pos as int {
            a.flow(i).remove(neg)
        } else if i == neg as int {
            a.flow(i).remove(pos)
        } else {
            a.flow(i)
        }
}

proof fn lemma_same_states_wf<T: TypeSystem>(a: Automaton<T>, b: Automaton<T>)
    requires
        a.wf(),
        b.same_states(a),
    ensures
        forall|i: int| 0 <= i < b.len() ==> (#[trigger] b.states@[i]).cons.wf(),
        forall|i: int| 0 <= i < b.len() ==> labels_unique(#[trigger] b.trans(i)),
        forall|i: int, k: int|
            0 <= i < b.len() && 0 <= k < b.trans(i).len() ==> {
                let t = #[trigger] b.trans(i)[k];
                &&& t.target < b.len()
                &&& b.pol(t.target as int) == composed(b.pol(i), t.symbol.pol)
            },
{
    assert forall|i: int| 0 <= i < b.len() implies (#[trigger] b.states@[i]).cons.wf() by {
        assert(b.pol(i) == a.pol(i));
        assert(b.cons(i) == a.cons(i));
    }
    assert forall|i: int| 0 <= i < b.len() implies labels_unique(#[trigger] b.trans(i)) by {
        assert(b.pol(i) == a.pol(i));
        assert(b.trans(i) == a.trans(i));
    }
    assert forall|i: int, k: int| 0 <= i < b.len() && 0 <= k < b.trans(i).len() implies {
        let t = #[trigger] b.trans(i)[k];
        &&& t.target < b.len()
        &&& b.pol(t.target as int) == composed(b.pol(i), t.symbol.pol)
    } by {
        assert(b.pol(i) == a.pol(i));
        assert(b.trans(i) == a.trans(i));
        let t = a.trans(i)[k];
        assert(b.pol(t.target as int) == a.pol(t.target as int));
    }
}

proof fn lemma_added_wf<T: TypeSystem>(a: Automaton<T>, b: Automaton<T>, p: usize, n: usize)
    requires
        a.wf(),
        p < a.len(),
        n < a.len(),
        a.pol(p as int) == Polarity::Pos,
        a.pol(n as int) == Polarity::Neg,
        flow_added(a, b, p, n),
    ensures
        b.wf(),
{
    lemma_same_states_wf(a, b);
    assert forall|i: usize, j: usize| i < b.len() && #[trigger] b.flow(i as int).contains(j) implies {
        &&& j < b.len()
        &&& b.pol(j as int) != b.pol(i as int)
        &&& b.flow(j as int).contains(i)
    } by {
        assert(b.pol(i as int) == a.pol(i as int));
        if a.flow(i as int).contains(j) {
            assert(a.flow(j as int).contains(i));
            assert(b.pol(j as int) == a.pol(j as int));
            assert(b.flow(j as int) == a.flow(j as int) || b.flow(j as int) == a.flow(j as int).insert(p)
                || b.flow(j as int) == a.flow(j as int).insert(n));
        } else {
            assert(b.flow(p as int) == a.flow(p as int).insert(n));
            assert(b.flow(n as int) == a.flow(n as int).insert(p));
            assert(b.pol(p as int) == a.pol(p as int) && b.pol(n as int) == a.pol(n as int));
        }
    }
}

proof fn lemma_removed_wf<T: TypeSystem>(a: Automaton<T>, b: Automaton<T>, p: usize, n: usize)
    requires
        a.wf(),
        p < a.len(),
        n < a.len(),
        a.pol(p as int) == Polarity::Pos,
        a.pol(n as int) == Polarity::Neg,
        flow_removed(a, b, p, n),
    ensures
        b.wf(),
{
    lemma_same_states_wf(a, b);
    assert forall|i: usize, j: usize| i < b.len() && #[trigger] b.flow(i as int).contains(j) implies {
        &&& j < b.len()
        &&& b.pol(j as int) != b.pol(i as int)
        &&& b.flow(j as int).contains(i)
    } by {
        assert(b.pol(i as int) == a.pol(i as int));
        assert(a.flow(i as int).contains(j));
        assert(a.flow(j as int).contains(i));
        assert(b.pol(j as int) == a.pol(j as int));
        assert(b.flow(p as int) == a.flow(p as int).remove(n));
        assert(b.flow(n as int) == a.flow(n as int).remove(p));
        assert(b.flow(j as int) == a.flow(j as int) || b.flow(j as int) == a.flow(j as int).remove(p)
            || b.flow(j as int) == a.flow(j as int).remove(n));
    }
}

/// In a well-formed automaton the flow relation is symmetric: `n` is in the flow
/// set of `p` exactly when `p` is in the flow set of `n`. Every operation that
/// changes flows keeps the automaton well-formed.
pub proof fn lemma_flow_symmetric<T: TypeSystem>(a: Automaton<T>, p: usize, n: usize)
    requires
        a.wf(),
        p < a.len(),
        n < a.len(),
    ensures
        a.flows_to(p, n) <==> a.flows_to(n, p),
{
}

/// Adding the same edge a second time leaves the flow relation as the first
/// addition left it.
pub proof fn lemma_add_flow_idempotent<T: TypeSystem>(
    a0: Automaton<T>,
    a1: Automaton<T>,
    a2: Automaton<T>,
    pos: usize,
    neg: usize,
)
    requires
        flow_added(a0, a1, pos, neg),
        flow_added(a1, a2, pos, neg),
    ensures
        a2.flow_relation() == a1.flow_relation(),
{
    assert forall|i: int| 0 <= i < a1.len() implies #[trigger] a2.flow(i) == a1.flow(i) by {
        assert(a2.flow(i) == a1.flow(i) || a2.flow(i) == a1.flow(i).insert(pos) || a2.flow(i)
            == a1.flow(i).insert(neg));
        if i == pos as int {
            assert(a2.flow(i) =~= a1.flow(i));
        } else if i == neg as int {
            assert(a2.flow(i) =~= a1.flow(i));
        }
    }
    assert(a2.flow_relation() =~= a1.flow_relation());
}

/// Removing an edge right after adding it, where it was absent, restores the
/// flow relation exactly.
pub proof fn lemma_add_remove_restores<T: TypeSystem>(
    a0: Automaton<T>,
    a1: Automaton<T>,
    a2: Automaton<T>,
    pos: usize,
    neg: usize,
)
    requires
        a0.wf(),
        pos < a0.len(),
        neg < a0.len(),
        a0.pol(pos as int) == Polarity::Pos,
        a0.pol(neg as int) == Polarity::Neg,
        !a0.flows_to(pos, neg),
        flow_added(a0, a1, pos, neg),
        flow_removed(a1, a2, pos, neg),
    ensures
        a2.flow_relation() == a0.flow_relation(),
{
    assert(!a0.flows_to(neg, pos));
    assert forall|i: int| 0 <= i < a0.len() implies #[trigger] a2.flow(i) == a0.flow(i) by {
        if i == pos as int {
            assert(a2.flow(i) =~= a0.flow(i));
        } else if i == neg as int {
            assert(a2.flow(i) =~= a0.flow(i));
        }
    }
    assert(a2.flow_relation() =~= a0.flow_relation());
}

/// `b` is `a` where the positive state `pos` also flows into every state that
/// `source` flows into; the same reading holds with both negative.
pub open spec fn flows_merged<T: TypeSystem>(a: Automaton<T>, b: Automaton<T>, target: usize, source: usize) -> bool {
    &&& b.same_states(a)
    &&& b.flow(target as int) == a.flow(target as int).union(a.flow(source as int))
    &&& forall|i: usize|
        i < a.len() && i != target ==> #[trigger] b.flow(i as int) == if a.flow(source as int).contains(i) {
            a.flow(i as int).insert(target)
        } else {
            a.flow(i as int)
        }
}

impl<T: TypeSystem> Automaton<T> {
    /// Whether `pos` flows into `neg`.
    pub fn has_flow(&self, pair: Pair) -> (r: bool)
        requires
            self.valid(pair.pos),
        ensures
            r == self.flows_to(pair.pos.index, pair.neg.index),
    {
        set_contains(&self.states[pair.pos.index].flow.set, pair.neg.index)
    }

    /// Records that `pair.pos` flows into `pair.neg`, on both ends; returns
    /// whether the edge is new.
    pub fn add_flow(&mut self, pair: Pair) -> (new: bool)
        requires
            old(self).wf(),
            old(self).valid(pair.pos),
            old(self).valid(pair.neg),
            old(self).pol(pair.pos.index as int) == Polarity::Pos,
            old(self).pol(pair.neg.index as int) == Polarity::Neg,
        ensures
            final(self).wf(),
            flow_added(*old(self), *final(self), pair.pos.index, pair.neg.index),
            new == !old(self).flow(pair.pos.index as int).contains(pair.neg.index),
    {
        let p = pair.pos.index;
        let n = pair.neg.index;
        let had_p = set_insert(&mut self.states[p].flow.set, n);
        let _had_n = set_insert(&mut self.states[n].flow.set, p);
        proof {
            lemma_added_wf(*old(self), *self, p, n);
        }
        !had_p
    }

    /// Takes out the edge from `pair.pos` into `pair.neg`, on both ends; returns
    /// whether it was there.
    pub fn remove_flow(&mut self, pair: Pair) -> (had: bool)
        requires
            old(self).wf(),
            old(self).valid(pair.pos),
            old(self).valid(pair.neg),
            old(self).pol(pair.pos.index as int) == Polarity::Pos,
            old(self).pol(pair.neg.index as int) == Polarity::Neg,
        ensures
            final(self).wf(),
            flow_removed(*old(self), *final(self), pair.pos.index, pair.neg.index),
            had == old(self).flow(pair.pos.index as int).contains(pair.neg.index),
    {
        let p = pair.pos.index;
        let n = pair.neg.index;
        let had_p = set_remove(&mut self.states[p].flow.set, n);
        let _had_n = set_remove(&mut self.states[n].flow.set, p);
        proof {
            lemma_removed_wf(*old(self), *self, p, n);
        }
        had_p
    }

    /// Lets `pos` inherit every flow edge of `source`, both positive states.
    pub fn merge_flow_pos(&mut self, pos: StateId, source: StateId)
        requires
            old(self).wf(),
            old(self).valid(pos),
            old(self).valid(source),
            old(self).pol(pos.index as int) == Polarity::Pos,
            old(self).pol(source.index as int) == Polarity::Pos,
        ensures
            final(self).wf(),
            flows_merged(*old(self), *final(self), pos.index, source.index),
    {
        let elems = self.states[source.index].flow.iter();
        let ghost start = *self;
        let mut k: usize = 0;
        while k < elems.len()
            invariant
                self.wf(),
                start.wf(),
                k <= elems@.len(),
                pos.index < start.len(),
                source.index < start.len(),
                start.pol(pos.index as int) == Polarity::Pos,
                start.pol(source.index as int) == Polarity::Pos,
                elems@.to_set() == start.flow(source.index as int),
                self.same_states(start),
                self.flow(pos.index as int) == start.flow(pos.index as int).union(
                    elems@.subrange(0, k as int).to_set(),
                ),
                forall|i: usize|
                    i < start.len() && i != pos.index ==> #[trigger] self.flow(i as int) == if elems@.subrange(
                        0,
                        k as int,
                    ).contains(i) {
                        start.flow(i as int).insert(pos.index)
                    } else {
                        start.flow(i as int)
                    },
            decreases elems@.len() - k,
        {
            let neg = elems[k];
            proof {
                assert(elems@.contains(neg));
                assert(elems@.to_set().contains(neg));
                assert(start.flow(source.index as int).contains(neg));
                assert(self.pol(neg as int) == start.pol(neg as int));
                assert(self.pol(pos.index as int) == start.pol(pos.index as int));
            }
            let ghost before = *self;
            self.add_flow(Pair { pos, neg: StateId { index: neg } });
            proof {
                let pre = elems@.subrange(0, k as int);
                let post = elems@.subrange(0, k + 1);
                assert(post =~= pre.push(neg));
                assert(post.to_set() =~= pre.to_set().insert(neg)) by {
                    assert forall|x: usize| post.to_set().contains(x) <==> pre.to_set().insert(neg).contains(x) by {
                        if post.contains(x) && x != neg {
                            let j = choose|j: int| 0 <= j < post.len() && post[j] == x;
                            assert(pre[j] == x);
                        }
                        if pre.contains(x) {
                            let j = choose|j: int| 0 <= j < pre.len() && pre[j] == x;
                            assert(post[j] == x);
                        }
                        if x == neg {
                            assert(post[k as int] == neg);
                        }
                    }
                }
                assert(self.flow(pos.index as int) =~= start.flow(pos.index as int).union(post.to_set()));
                assert forall|i: usize| i < start.len() && i != pos.index implies #[trigger] self.flow(i as int) == if post.contains(i) {
                    start.flow(i as int).insert(pos.index)
                } else {
                    start.flow(i as int)
                } by {
                    assert(post.to_set().contains(i) == post.contains(i));
                    assert(pre.to_set().contains(i) == pre.contains(i));
                    if i == neg {
                        assert(self.flow(i as int) == before.flow(i as int).insert(pos.index));
                    } else {
                        assert(self.flow(i as int) == before.flow(i as int));
                    }
                }
                assert(self.same_states(start)) by {
                    assert forall|i: int| 0 <= i < self.len() implies {
                        &&& #[trigger] self.pol(i) == start.pol(i)
                        &&& self.cons(i) == start.cons(i)
                        &&& self.trans(i) == start.trans(i)
                    } by {
                        assert(self.pol(i) == before.pol(i));
                        assert(before.pol(i) == start.pol(i));
                    }
                }
            }
            k = k + 1;
        }
        proof {
            assert(elems@.subrange(0, k as int) =~= elems@);
        }
    }

    /// Lets `neg` inherit every flow edge of `source`, both negative states.
    pub fn merge_flow_neg(&mut self, neg: StateId, source: StateId)
        requires
            old(self).wf(),
            old(self).valid(neg),
            old(self).valid(source),
            old(self).pol(neg.index as int) == Polarity::Neg,
            old(self).pol(source.index as int) == Polarity::Neg,
        ensures
            final(self).wf(),
            flows_merged(*old(self), *final(self), neg.index, source.index),
    {
        let elems = self.states[source.index].flow.iter();
        let ghost start = *self;
        let mut k: usize = 0;
        while k < elems.len()
            invariant
                self.wf(),
                start.wf(),
                k <= elems@.len(),
                neg.index < start.len(),
                source.index < start.len(),
                start.pol(neg.index as int) == Polarity::Neg,
                start.pol(source.index as int) == Polarity::Neg,
                elems@.to_set() == start.flow(source.index as int),
                self.same_states(start),
                self.flow(neg.index as int) == start.flow(neg.index as int).union(
                    elems@.subrange(0, k as int).to_set(),
                ),
                forall|i: usize|
                    i < start.len() && i != neg.index ==> #[trigger] self.flow(i as int) == if elems@.subrange(
                        0,
                        k as int,
                    ).contains(i) {
                        start.flow(i as int).insert(neg.index)
                    } else {
                        start.flow(i as int)
                    },
            decreases elems@.len() - k,
        {
            let pos = elems[k];
            proof {
                assert(elems@.contains(pos));
                assert(elems@.to_set().contains(pos));
                assert(start.flow(source.index as int).contains(pos));
                assert(self.pol(pos as int) == start.pol(pos as int));
                assert(self.pol(neg.index as int) == start.pol(neg.index as int));
            }
            let ghost before = *self;
            self.add_flow(Pair { pos: StateId { index: pos }, neg });
            proof {
                let pre = elems@.subrange(0, k as int);
                let post = elems@.subrange(0, k + 1);
                assert(post =~= pre.push(pos));
                assert(post.to_set() =~= pre.to_set().insert(pos)) by {
                    assert forall|x: usize| post.to_set().contains(x) <==> pre.to_set().insert(pos).contains(x) by {
                        if post.contains(x) && x != pos {
                            let j = choose|j: int| 0 <= j < post.len() && post[j] == x;
                            assert(pre[j] == x);
                        }
                        if pre.contains(x) {
                            let j = choose|j: int| 0 <= j < pre.len() && pre[j] == x;
                            assert(post[j] == x);
                        }
                        if x == pos {
                            assert(post[k as int] == pos);
                        }
                    }
                }
                assert(self.flow(neg.index as int) =~= start.flow(neg.index as int).union(post.to_set()));
                assert forall|i: usize| i < start.len() && i != neg.index implies #[trigger] self.flow(i as int) == if post.contains(i) {
                    start.flow(i as int).insert(neg.index)
                } else {
                    start.flow(i as int)
                } by {
                    assert(post.to_set().contains(i) == post.contains(i));
                    assert(pre.to_set().contains(i) == pre.contains(i));
                    if i == pos {
                        assert(self.flow(i as int) == before.flow(i as int).insert(neg.index));
                    } else {
                        assert(self.flow(i as int) == before.flow(i as int));
                    }
                }
                assert(self.same_states(start)) by {
                    assert forall|i: int| 0 <= i < self.len() implies {
                        &&& #[trigger] self.pol(i) == start.pol(i)
                        &&& self.cons(i) == start.cons(i)
                        &&& self.trans(i) == start.trans(i)
                    } by {
                        assert(self.pol(i) == before.pol(i));
                        assert(before.pol(i) == start.pol(i));
                    }
                }
            }
            k = k + 1;
        }
        proof {
            assert(elems@.subrange(0, k as int) =~= elems@);
        }
    }
}

} // verus!
