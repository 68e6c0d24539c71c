use biunify::auto::{Automaton, StateId};
use biunify::flow::Pair;
use biunify::{Polarity, Shapes};

fn sorted(mut v: Vec<usize>) -> Vec<usize> {
    v.sort();
    v
}

#[test]
fn add_flow_is_symmetric_and_reports_novelty() {
    let mut a: Automaton<Shapes> = Automaton::new();
    let p = a.add_state(Polarity::Pos);
    let n = a.add_state(Polarity::Neg);
    let pair = Pair { pos: p, neg: n };
    assert!(!a.has_flow(pair));
    assert!(a.add_flow(pair));
    assert!(a.has_flow(pair));
    assert_eq!(a.flows(p).iter(), vec![n.index]);
    assert_eq!(a.flows(n).iter(), vec![p.index]);
    assert!(!a.add_flow(pair));
    assert_eq!(a.flows(p).iter(), vec![n.index]);
    assert_eq!(a.flows(n).iter(), vec![p.index]);
}

#[test]
fn remove_flow_restores() {
    let mut a: Automaton<Shapes> = Automaton::new();
    let p = a.add_state(Polarity::Pos);
    let n1 = a.add_state(Polarity::Neg);
    let n2 = a.add_state(Polarity::Neg);
    a.add_flow(Pair { pos: p, neg: n1 });
    assert!(a.add_flow(Pair { pos: p, neg: n2 }));
    assert!(a.remove_flow(Pair { pos: p, neg: n2 }));
    assert_eq!(a.flows(p).iter(), vec![n1.index]);
    assert!(a.flows(n2).iter().is_empty());
    assert!(!a.remove_flow(Pair { pos: p, neg: n2 }));
    assert!(a.has_flow(Pair { pos: p, neg: n1 }));
}

#[test]
fn merge_flow_pos_inherits_edges() {
    let mut a: Automaton<Shapes> = Automaton::new();
    let p = a.add_state(Polarity::Pos);
    let src = a.add_state(Polarity::Pos);
    let n1 = a.add_state(Polarity::Neg);
    let n2 = a.add_state(Polarity::Neg);
    a.add_flow(Pair { pos: p, neg: n1 });
    a.add_flow(Pair { pos: src, neg: n1 });
    a.add_flow(Pair { pos: src, neg: n2 });
    a.merge_flow_pos(p, src);
    assert_eq!(sorted(a.flows(p).iter()), vec![n1.index, n2.index]);
    assert_eq!(sorted(a.flows(n2).iter()), vec![p.index, src.index]);
    assert_eq!(sorted(a.flows(n1).iter()), vec![p.index, src.index]);
}

#[test]
fn merge_flow_neg_inherits_edges() {
    let mut a: Automaton<Shapes> = Automaton::new();
    let n = a.add_state(Polarity::Neg);
    let src = a.add_state(Polarity::Neg);
    let p1 = a.add_state(Polarity::Pos);
    a.add_flow(Pair { pos: p1, neg: src });
    a.merge_flow_neg(n, src);
    assert!(a.has_flow(Pair { pos: p1, neg: n }));
    assert_eq!(a.flows(n).iter(), vec![p1.index]);
    assert_eq!(sorted(a.flows(p1).iter()), vec![n.index, src.index]);
}

#[test]
fn states_get_fresh_ids() {
    let mut a: Automaton<Shapes> = Automaton::new();
    let s0 = a.add_state(Polarity::Pos);
    let s1 = a.add_state(Polarity::Neg);
    assert_eq!(s0, StateId { index: 0 });
    assert_eq!(s1, StateId { index: 1 });
    assert_eq!(a.state_count(), 2);
    assert_eq!(a.polarity(s1), Polarity::Neg);
    assert_eq!(a.index(s0).pol, Polarity::Pos);
    assert_eq!(a.index(s0).cons.len(), 0);
}
