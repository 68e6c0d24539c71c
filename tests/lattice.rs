use biunify::cons::{ConstructorSet, Shape};
use biunify::Polarity;

#[test]
fn polarity_negation_is_involution() {
    assert_eq!(Polarity::Pos.neg(), Polarity::Neg);
    assert_eq!(Polarity::Neg.neg(), Polarity::Pos);
    assert_eq!(Polarity::Pos.neg().neg(), Polarity::Pos);
    assert_eq!(Polarity::Neg.neg().neg(), Polarity::Neg);
}

#[test]
fn polarity_composition() {
    assert_eq!(Polarity::Pos.mul(Polarity::Pos), Polarity::Pos);
    assert_eq!(Polarity::Pos.mul(Polarity::Neg), Polarity::Neg);
    assert_eq!(Polarity::Neg.mul(Polarity::Pos), Polarity::Neg);
    assert_eq!(Polarity::Neg.mul(Polarity::Neg), Polarity::Pos);
}

#[test]
fn add_pos_inserts_then_joins() {
    let mut s: ConstructorSet<Shape> = ConstructorSet::new();
    s.add_pos(Shape { key: 7, level: 2 });
    assert_eq!(s.len(), 1);
    s.add_pos(Shape { key: 7, level: 5 });
    assert_eq!(s.len(), 1);
    assert_eq!(*s.get(0), Shape { key: 7, level: 5 });
    s.add_pos(Shape { key: 7, level: 1 });
    assert_eq!(*s.get(0), Shape { key: 7, level: 5 });
    s.add_pos(Shape { key: 8, level: 0 });
    assert_eq!(s.len(), 2);
    assert_eq!(s.lookup(8), Some(&Shape { key: 8, level: 0 }));
    assert_eq!(s.lookup(9), None);
}

#[test]
fn add_neg_inserts_then_meets() {
    let mut s: ConstructorSet<Shape> = ConstructorSet::new();
    s.add_neg(Shape { key: 3, level: 4 });
    s.add_neg(Shape { key: 3, level: 9 });
    assert_eq!(s.len(), 1);
    assert_eq!(*s.get(0), Shape { key: 3, level: 4 });
    s.add_neg(Shape { key: 3, level: 1 });
    assert_eq!(*s.get(0), Shape { key: 3, level: 1 });
}

#[test]
fn join_order_does_not_matter() {
    let a = Shape { key: 1, level: 3 };
    let b = Shape { key: 1, level: 6 };
    let mut s1: ConstructorSet<Shape> = ConstructorSet::new();
    s1.add_pos(a);
    s1.add_pos(b);
    let mut s2: ConstructorSet<Shape> = ConstructorSet::new();
    s2.add_pos(b);
    s2.add_pos(a);
    assert_eq!(s1.len(), 1);
    assert_eq!(s2.len(), 1);
    assert_eq!(*s1.get(0), *s2.get(0));
    assert_eq!(*s1.get(0), Shape { key: 1, level: 6 });
}

#[test]
fn add_pos_twice_is_idempotent() {
    let c = Shape { key: 4, level: 2 };
    let mut once: ConstructorSet<Shape> = ConstructorSet::new();
    once.add_pos(Shape { key: 4, level: 1 });
    once.add_pos(c);
    let mut twice: ConstructorSet<Shape> = ConstructorSet::new();
    twice.add_pos(Shape { key: 4, level: 1 });
    twice.add_pos(c);
    twice.add_pos(c);
    assert_eq!(once.len(), twice.len());
    assert_eq!(*once.get(0), *twice.get(0));
}

#[test]
fn whole_set_join_and_meet() {
    let mut a: ConstructorSet<Shape> = ConstructorSet::new();
    a.add_pos(Shape { key: 1, level: 5 });
    let mut b: ConstructorSet<Shape> = ConstructorSet::new();
    b.add_pos(Shape { key: 1, level: 2 });
    b.add_pos(Shape { key: 2, level: 7 });
    let mut j = a.duplicate();
    j.join(&b);
    assert_eq!(j.len(), 2);
    assert_eq!(j.lookup(1), Some(&Shape { key: 1, level: 5 }));
    assert_eq!(j.lookup(2), Some(&Shape { key: 2, level: 7 }));
    let mut m = a.duplicate();
    m.meet(&b);
    assert_eq!(m.lookup(1), Some(&Shape { key: 1, level: 2 }));
    assert_eq!(m.lookup(2), Some(&Shape { key: 2, level: 7 }));
}
