//! Biunification: making the automaton consistent with a required flow.
use vstd::arithmetic::div_mod::{lemma_fundamental_div_mod, lemma_fundamental_div_mod_converse};
use vstd::prelude::*;
use vstd::set_lib::{lemma_int_range, lemma_len_subset, set_int_range};

use crate::auto::{cons_changed, Automaton, StateId};
use crate::cons::{index_of, Constructor, ConstructorSet};
use crate::flow::{flow_added, Pair};
use crate::trans::find_transition;
use crate::{composed, Polarity, TypeSystem};

verus! {

/// Two states required to flow into each other carry incompatible shapes:
/// `pos_key` is offered by `pair.pos` and not accepted by `pair.neg`, which
/// carries `neg_key`.
#[derive(Clone, Copy, Debug)]
pub struct Conflict {
    pub pair: Pair,
    pub pos_key: u64,
    pub neg_key: u64,
}

/// The producer `p` offers a shape that the consumer `n` constrains and lacks.
pub open spec fn clashes<C: Constructor>(p: Seq<C>, n: Seq<C>) -> bool {
    &&& n.len() > 0
    &&& exists|i: int| 0 <= i < p.len() && index_of(n, (#[trigger] p[i]).spec_key()) is None
}

/// `p` and `n` have a constructor of the same shape.
pub open spec fn share_key<C: Constructor>(p: Seq<C>, n: Seq<C>) -> bool {
    exists|i: int| 0 <= i < p.len() && index_of(n, (#[trigger] p[i]).spec_key()) is Some
}

/// `c` describes a mismatch present in `a`.
pub open spec fn conflict_in<T: TypeSystem>(a: Automaton<T>, c: Conflict) -> bool {
    let p = c.pair.pos.index as int;
    let n = c.pair.neg.index as int;
    &&& a.valid(c.pair.pos)
    &&& a.valid(c.pair.neg)
    &&& a.flows_to(c.pair.pos.index, c.pair.neg.index)
    &&& index_of(a.cons(p), c.pos_key) is Some
    &&& index_of(a.cons(n), c.neg_key) is Some
    &&& index_of(a.cons(n), c.pos_key) is None
}

/// Finds a key of `p` that a non-empty `n` lacks.
pub fn find_clash<C: Constructor>(p: &ConstructorSet<C>, n: &ConstructorSet<C>) -> (r: Option<u64>)
    requires
        n.wf(),
    ensures
        match r {
            Some(k) => index_of(p@, k) is Some && index_of(n@, k) is None && n@.len() > 0,
            None => !clashes(p@, n@),
        },
{
    if n.len() == 0 {
        return None;
    }
    let mut i: usize = 0;
    while i < p.len()
        invariant
            i <= p@.len(),
            n.wf(),
            n@.len() > 0,
            forall|j: int| 0 <= j < i ==> index_of(n@, (#[trigger] p@[j]).spec_key()) is Some,
        decreases p@.len() - i,
    {
        let k = p.get(i).key();
        if n.lookup(k).is_none() {
            assert(index_of(p@, k) is Some) by {
                assert(p@[i as int].spec_key() == k);
            }
            assert(index_of(n@, k) is None);
            return Some(k);
        }
        i = i + 1;
    }
    None
}

/// Whether `p` and `n` have a constructor of the same shape.
pub fn shares_key<C: Constructor>(p: &ConstructorSet<C>, n: &ConstructorSet<C>) -> (r: bool)
    requires
        n.wf(),
    ensures
        r == share_key(p@, n@),
{
    let mut i: usize = 0;
    while i < p.len()
        invariant
            i <= p@.len(),
            n.wf(),
            forall|j: int| 0 <= j < i ==> index_of(n@, (#[trigger] p@[j]).spec_key()) is None,
        decreases p@.len() - i,
    {
        if n.lookup(p.get(i).key()).is_some() {
            return true;
        }
        i = i + 1;
    }
    false
}

/// Codes `p * len + n` of the edges from a positive `p` into `n`.
pub open spec fn edge_codes<T: TypeSystem>(a: Automaton<T>) -> Set<int> {
    let m = a.len();
    Set::new(
        |c: int|
            0 <= c < m * m && a.pol(c / m) == Polarity::Pos && a.flow(c / m).contains(
                (c % m) as usize,
            ),
    )
}

proof fn lemma_edge_codes_bounded<T: TypeSystem>(a: Automaton<T>)
    ensures
        edge_codes(a).finite(),
        edge_codes(a).len() <= a.len() * a.len(),
{
    let m = a.len();
    assert(m * m >= 0) by (nonlinear_arith);
    lemma_int_range(0, m * m);
    assert(edge_codes(a).subset_of(set_int_range(0, m * m)));
    lemma_len_subset(edge_codes(a), set_int_range(0, m * m));
}

proof fn lemma_edge_codes_same<T: TypeSystem>(a: Automaton<T>, b: Automaton<T>)
    requires
        a.len() == b.len(),
        forall|i: int| 0 <= i < a.len() ==> #[trigger] b.pol(i) == a.pol(i) && b.flow(i) == a.flow(i),
    ensures
        edge_codes(a) == edge_codes(b),
{
    let m = a.len();
    assert(edge_codes(a) =~= edge_codes(b)) by {
        assert forall|c: int| edge_codes(a).contains(c) == edge_codes(b).contains(c) by {
            if 0 <= c < m * m {
                lemma_fundamental_div_mod(c, m);
                let q = c / m;
                let r = c % m;
                assert(0 <= q < m) by (nonlinear_arith)
                    requires
                        c == m * q + r,
                        0 <= r < m,
                        0 <= c < m * m,
                ;
                assert(b.pol(q) == a.pol(q));
            }
        }
    }
}

proof fn lemma_edge_added<T: TypeSystem>(a: Automaton<T>, b: Automaton<T>, p: usize, n: usize)
    requires
        a.wf(),
        p < a.len(),
        n < a.len(),
        a.pol(p as int) == Polarity::Pos,
        a.pol(n as int) == Polarity::Neg,
        !a.flows_to(p, n),
        flow_added(a, b, p, n),
    ensures
        edge_codes(b).len() == edge_codes(a).len() + 1,
{
    let m = a.len();
    let c0 = p * m + n;
    assert(0 <= c0 < m * m) by (nonlinear_arith)
        requires
            c0 == p * m + n,
            0 <= p < m,
            0 <= n < m,
    ;
    lemma_fundamental_div_mod_converse(c0, m, p as int, n as int);
    assert(!edge_codes(a).contains(c0));
    assert(edge_codes(b) =~= edge_codes(a).insert(c0)) by {
        assert forall|c: int| edge_codes(b).contains(c) == edge_codes(a).insert(c0).contains(c) by {
            if 0 <= c < m * m {
                lemma_fundamental_div_mod(c, m);
                let q = c / m;
                let r = c % m;
                assert(0 <= q < m) by (nonlinear_arith)
                    requires
                        c == m * q + r,
                        0 <= r < m,
                        0 <= c < m * m,
                ;
                assert(b.pol(q) == a.pol(q));
                if q == p as int && r == n as int {
                    assert(c == c0) by (nonlinear_arith)
                        requires
                            c == m * q + r,
                            c0 == p * m + n,
                            q == p,
                            r == n,
                    ;
                    assert(b.flow(q) == a.flow(q).insert(n));
                } else if c == c0 {
                } else if q == p as int {
                    assert(b.flow(q) == a.flow(q).insert(n));
                    assert((r as usize) != n);
                } else if q == n as int {
                    assert(b.pol(q) == Polarity::Neg);
                } else {
                    assert(b.flow(q) == a.flow(q));
                }
            }
        }
    }
    lemma_edge_codes_bounded(a);
}

/// `b` has the states of `a`, with the same polarities and transitions, and
/// at least its flows.
pub open spec fn grown<T: TypeSystem>(a: Automaton<T>, b: Automaton<T>) -> bool {
    &&& b.len() == a.len()
    &&& forall|i: int|
        0 <= i < a.len() ==> {
            &&& #[trigger] b.pol(i) == a.pol(i)
            &&& b.trans(i) == a.trans(i)
            &&& a.flow(i).subset_of(b.flow(i))
        }
}

proof fn lemma_grown_by_flow<T: TypeSystem>(s: Automaton<T>, a: Automaton<T>, b: Automaton<T>, p: usize, n: usize)
    requires
        grown(s, a),
        flow_added(a, b, p, n),
    ensures
        grown(s, b),
{
    assert forall|i: int| 0 <= i < s.len() implies {
        &&& #[trigger] b.pol(i) == s.pol(i)
        &&& b.trans(i) == s.trans(i)
        &&& s.flow(i).subset_of(b.flow(i))
    } by {
        assert(b.pol(i) == a.pol(i));
        assert(a.pol(i) == s.pol(i));
    }
}

proof fn lemma_grown_by_cons<T: TypeSystem>(s: Automaton<T>, a: Automaton<T>, b: Automaton<T>, id: usize)
    requires
        grown(s, a),
        cons_changed(a, b, id),
    ensures
        grown(s, b),
{
    assert forall|i: int| 0 <= i < s.len() implies {
        &&& #[trigger] b.pol(i) == s.pol(i)
        &&& b.trans(i) == s.trans(i)
        &&& s.flow(i).subset_of(b.flow(i))
    } by {
        assert(b.pol(i) == a.pol(i));
        assert(a.pol(i) == s.pol(i));
    }
}

impl<T: TypeSystem> Automaton<T> {
    /// Requires that `pair.pos` flows into `pair.neg`, and propagates the
    /// requirement through matching shapes until nothing new is learned.
    pub fn biunify(&mut self, pair: Pair) -> (r: Result<(), Conflict>)
        requires
            old(self).wf(),
            old(self).valid(pair.pos),
            old(self).valid(pair.neg),
            old(self).pol(pair.pos.index as int) == Polarity::Pos,
            old(self).pol(pair.neg.index as int) == Polarity::Neg,
        ensures
            final(self).wf(),
            grown(*old(self), *final(self)),
            old(self).flows_to(pair.pos.index, pair.neg.index) ==> r is Ok && *final(self) == *old(self),
            !old(self).flows_to(pair.pos.index, pair.neg.index) && clashes(
                old(self).cons(pair.pos.index as int),
                old(self).cons(pair.neg.index as int),
            ) ==> (r matches Err(c) && c.pair.pos == pair.pos && c.pair.neg == pair.neg),
            !clashes(old(self).cons(pair.pos.index as int), old(self).cons(pair.neg.index as int))
                && old(self).trans(pair.pos.index as int).len() == 0 ==> r is Ok,
            r is Ok ==> final(self).flows_to(pair.pos.index, pair.neg.index),
            (r matches Err(c) ==> conflict_in(*final(self), c)),
    {
        let ghost start = *self;
        let ghost first = (!start.flows_to(pair.pos.index, pair.neg.index) && clashes(
            start.cons(pair.pos.index as int),
            start.cons(pair.neg.index as int),
        ));
        let ghost leaf = (!clashes(start.cons(pair.pos.index as int), start.cons(pair.neg.index as int))
            && start.trans(pair.pos.index as int).len() == 0);
        let mut work: Vec<Pair> = Vec::new();
        work.push(pair);
        proof {
            lemma_edge_codes_bounded(*self);
        }
        while work.len() > 0
            invariant
                self.wf(),
                start == *old(self),
                pair.pos.index < start.len(),
                pair.neg.index < start.len(),
                first == (!start.flows_to(pair.pos.index, pair.neg.index) && clashes(
                    start.cons(pair.pos.index as int),
                    start.cons(pair.neg.index as int),
                )),
                leaf == (!clashes(start.cons(pair.pos.index as int), start.cons(pair.neg.index as int))
                    && start.trans(pair.pos.index as int).len() == 0),
                leaf ==> (work@ == seq![pair] && *self == start) || work@.len() == 0,
                grown(start, *self),
                forall|j: int|
                    0 <= j < work@.len() ==> {
                        let w = #[trigger] work@[j];
                        &&& w.pos.index < start.len()
                        &&& w.neg.index < start.len()
                        &&& self.pol(w.pos.index as int) == Polarity::Pos
                        &&& self.pol(w.neg.index as int) == Polarity::Neg
                    },
                (work@ == seq![pair] && *self == start) || (self.flows_to(pair.pos.index, pair.neg.index) && !first),
                start.flows_to(pair.pos.index, pair.neg.index) ==> *self == start && (work@ == seq![pair] || work@.len() == 0),
                edge_codes(*self).finite(),
                edge_codes(*self).len() <= self.len() * self.len(),
            decreases self.len() * self.len() - edge_codes(*self).len(), work@.len(),
        {
            let ghost wk = work@;
            let pr = match work.pop() {
                Some(w) => w,
                None => {
                    return Ok(());
                },
            };
            let ghost initial = wk == seq![pair] && *self == start;
            proof {
                if wk == seq![pair] {
                    assert(wk.last() == pair);
                    assert(pr == pair);
                }
            }
            if self.has_flow(pr) {
                continue;
            }
            let ghost before = *self;
            let p = pr.pos;
            let n = pr.neg;
            self.add_flow(pr);
            proof {
                lemma_edge_added(before, *self, p.index, n.index);
                lemma_edge_codes_bounded(*self);
                lemma_grown_by_flow(start, before, *self, p.index, n.index);
                assert(self.flows_to(p.index, n.index));
                if initial {
                    assert(pr == pair);
                    assert(self.cons(p.index as int) == start.cons(p.index as int));
                    assert(self.cons(n.index as int) == start.cons(n.index as int));
                } else {
                    assert(before.flows_to(pair.pos.index, pair.neg.index));
                    assert(self.flow(pair.pos.index as int) == before.flow(pair.pos.index as int)
                        || self.flow(pair.pos.index as int) == before.flow(pair.pos.index as int).insert(n.index)
                        || self.flow(pair.pos.index as int) == before.flow(pair.pos.index as int).insert(p.index));
                }
                assert(self.flows_to(pair.pos.index, pair.neg.index));
            }
            let pc = self.constructors(p).duplicate();
            let nc = self.constructors(n).duplicate();
            assert(nc.wf()) by {
                assert(self.states@[n.index as int].cons.wf());
            }
            match find_clash(&pc, &nc) {
                Some(k) => {
                    let neg_key = nc.get(0).key();
                    assert(index_of(nc@, neg_key) is Some) by {
                        assert(nc@[0].spec_key() == neg_key);
                    }
                    return Err(Conflict { pair: pr, pos_key: k, neg_key });
                },
                None => {
                    proof {
                        if initial {
                            assert(!first);
                            assert(work@.len() == 0);
                            assert(self.trans(p.index as int) == start.trans(p.index as int));
                        }
                    }
                },
            }
            if shares_key(&pc, &nc) {
                let ghost mid = *self;
                let mut k: usize = 0;
                while k < self.states[p.index].trans.len()
                    invariant
                        *self == mid,
                        self.wf(),
                        grown(start, *self),
                        p.index < self.len(),
                        n.index < self.len(),
                        self.pol(p.index as int) == Polarity::Pos,
                        self.pol(n.index as int) == Polarity::Neg,
                        k <= self.trans(p.index as int).len(),
                        initial && leaf ==> work@.len() == 0 && self.trans(p.index as int).len() == 0,
                        initial ==> p.index == pair.pos.index && self.trans(p.index as int) == start.trans(pair.pos.index as int),
                        forall|j: int|
                            0 <= j < work@.len() ==> {
                                let w = #[trigger] work@[j];
                                &&& w.pos.index < start.len()
                                &&& w.neg.index < start.len()
                                &&& self.pol(w.pos.index as int) == Polarity::Pos
                                &&& self.pol(w.neg.index as int) == Polarity::Neg
                            },
                    decreases self.trans(p.index as int).len() - k,
                {
                    let t = self.states[p.index].trans[k];
                    assert(self.trans(p.index as int)[k as int] == t);
                    match self.transition(n, t.symbol.label) {
                        Some(t2) => {
                            if t2.symbol == t.symbol {
                                proof {
                                    let ti = crate::trans::trans_index(self.trans(n.index as int), t.symbol.label)->Some_0;
                                    assert(self.trans(n.index as int)[ti] == t2);
                                }
                                if t.symbol.pol == Polarity::Pos {
                                    work.push(Pair { pos: StateId { index: t.target }, neg: StateId { index: t2.target } });
                                } else {
                                    work.push(Pair { pos: StateId { index: t2.target }, neg: StateId { index: t.target } });
                                }
                            }
                        },
                        None => {},
                    }
                    k = k + 1;
                }
            }
            let ghost pre_merge = *self;
            self.meet_cons(n, &pc);
            let ghost mid_merge = *self;
            self.join_cons(p, &nc);
            proof {
                lemma_grown_by_cons(start, pre_merge, mid_merge, n.index);
                lemma_grown_by_cons(start, mid_merge, *self, p.index);
                assert forall|i: int| 0 <= i < pre_merge.len() implies #[trigger] self.pol(i) == pre_merge.pol(i)
                    && self.flow(i) == pre_merge.flow(i) by {
                    assert(mid_merge.pol(i) == pre_merge.pol(i));
                    assert(self.pol(i) == mid_merge.pol(i));
                }
                lemma_edge_codes_same(pre_merge, *self);
                assert(self.flow(pair.pos.index as int) == pre_merge.flow(pair.pos.index as int)) by {
                    assert(self.pol(pair.pos.index as int) == pre_merge.pol(pair.pos.index as int));
                }
            }
        }
        Ok(())
    }
}

} // verus!
