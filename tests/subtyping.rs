use biunify::auto::{Automaton, StateId};
use biunify::cons::Shape;
use biunify::flow::Pair;
use biunify::trans::Symbol;
use biunify::{Polarity, Shapes};

const INT: u64 = 1;
const STRING: u64 = 2;
const FUNC: u64 = 3;

const DOMAIN: Symbol = Symbol { label: 0, pol: Polarity::Neg };
const CODOMAIN: Symbol = Symbol { label: 1, pol: Polarity::Pos };

fn leaf(a: &mut Automaton<Shapes>, pol: Polarity, keys: &[u64]) -> StateId {
    let s = a.add_state(pol);
    for k in keys {
        a.add_pos(s, Shape { key: *k, level: 0 });
    }
    s
}

fn function(a: &mut Automaton<Shapes>, pol: Polarity, dom: StateId, cod: StateId) -> StateId {
    let f = leaf(a, pol, &[FUNC]);
    assert!(a.add_transition(f, DOMAIN, dom));
    assert!(a.add_transition(f, CODOMAIN, cod));
    f
}

#[test]
fn int_to_int_flows_into_int_to_int_or_string() {
    let mut a: Automaton<Shapes> = Automaton::new();
    let dom1 = leaf(&mut a, Polarity::Neg, &[INT]);
    let cod1 = leaf(&mut a, Polarity::Pos, &[INT]);
    let f1 = function(&mut a, Polarity::Pos, dom1, cod1);
    let dom2 = leaf(&mut a, Polarity::Pos, &[INT]);
    let cod2 = leaf(&mut a, Polarity::Neg, &[INT, STRING]);
    let f2 = function(&mut a, Polarity::Neg, dom2, cod2);

    assert!(a.biunify(Pair { pos: f1, neg: f2 }).is_ok());
    assert!(a.has_flow(Pair { pos: f1, neg: f2 }));
    assert!(a.has_flow(Pair { pos: cod1, neg: cod2 }));
    assert!(a.has_flow(Pair { pos: dom2, neg: dom1 }));
    assert_eq!(a.flows(cod1).iter(), vec![cod2.index]);
}

#[test]
fn mismatched_shapes_conflict() {
    let mut a: Automaton<Shapes> = Automaton::new();
    let p = leaf(&mut a, Polarity::Pos, &[INT]);
    let n = leaf(&mut a, Polarity::Neg, &[STRING]);
    let r = a.biunify(Pair { pos: p, neg: n });
    let c = r.unwrap_err();
    assert_eq!(c.pos_key, INT);
    assert_eq!(c.neg_key, STRING);
    assert_eq!(c.pair.pos, p);
    assert_eq!(c.pair.neg, n);
}

#[test]
fn shared_shape_succeeds_and_registers_edge() {
    let mut a: Automaton<Shapes> = Automaton::new();
    let p = leaf(&mut a, Polarity::Pos, &[INT]);
    let n = leaf(&mut a, Polarity::Neg, &[INT]);
    assert!(a.biunify(Pair { pos: p, neg: n }).is_ok());
    assert!(a.has_flow(Pair { pos: p, neg: n }));
}

#[test]
fn nested_conflict_is_reported() {
    let mut a: Automaton<Shapes> = Automaton::new();
    let dom1 = leaf(&mut a, Polarity::Neg, &[INT]);
    let cod1 = leaf(&mut a, Polarity::Pos, &[STRING]);
    let f1 = function(&mut a, Polarity::Pos, dom1, cod1);
    let dom2 = leaf(&mut a, Polarity::Pos, &[INT]);
    let cod2 = leaf(&mut a, Polarity::Neg, &[INT]);
    let f2 = function(&mut a, Polarity::Neg, dom2, cod2);
    let c = a.biunify(Pair { pos: f1, neg: f2 }).unwrap_err();
    assert_eq!(c.pair.pos, cod1);
    assert_eq!(c.pair.neg, cod2);
    assert_eq!(c.pos_key, STRING);
    assert_eq!(c.neg_key, INT);
}

#[test]
fn registered_edge_is_not_processed_again() {
    let mut a: Automaton<Shapes> = Automaton::new();
    let p = leaf(&mut a, Polarity::Pos, &[INT]);
    let n = leaf(&mut a, Polarity::Neg, &[STRING]);
    a.add_flow(Pair { pos: p, neg: n });
    // The mismatch would be reported if the pair were examined.
    assert!(a.biunify(Pair { pos: p, neg: n }).is_ok());
    assert_eq!(a.constructors(p).len(), 1);
    assert_eq!(a.constructors(n).len(), 1);
}

#[test]
fn recursive_type_terminates() {
    // t = Int -> t, as a positive and a negative copy.
    let mut a: Automaton<Shapes> = Automaton::new();
    let pd = leaf(&mut a, Polarity::Neg, &[INT]);
    let p = leaf(&mut a, Polarity::Pos, &[FUNC]);
    assert!(a.add_transition(p, DOMAIN, pd));
    assert!(a.add_transition(p, CODOMAIN, p));
    let nd = leaf(&mut a, Polarity::Pos, &[INT]);
    let n = leaf(&mut a, Polarity::Neg, &[FUNC]);
    assert!(a.add_transition(n, DOMAIN, nd));
    assert!(a.add_transition(n, CODOMAIN, n));
    assert!(a.biunify(Pair { pos: p, neg: n }).is_ok());
    assert!(a.has_flow(Pair { pos: nd, neg: pd }));
    assert!(a.biunify(Pair { pos: p, neg: n }).is_ok());
}

#[test]
fn consumer_without_shape_accepts_anything() {
    let mut a: Automaton<Shapes> = Automaton::new();
    let p = leaf(&mut a, Polarity::Pos, &[INT]);
    let n = a.add_state(Polarity::Neg);
    assert!(a.biunify(Pair { pos: p, neg: n }).is_ok());
    assert_eq!(a.constructors(n).lookup(INT), Some(&Shape { key: INT, level: 0 }));
}

#[test]
fn duplicate_transition_label_is_refused() {
    let mut a: Automaton<Shapes> = Automaton::new();
    let f = a.add_state(Polarity::Pos);
    let d = a.add_state(Polarity::Neg);
    assert!(a.add_transition(f, DOMAIN, d));
    assert!(!a.add_transition(f, DOMAIN, d));
    assert_eq!(a.transition(f, 0).map(|t| t.target), Some(d.index));
    assert!(a.transition(f, 1).is_none());
}
