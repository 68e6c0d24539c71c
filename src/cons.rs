//! The constructor lattice: at most one constructor per structural key.
use vstd::prelude::*;

verus! {

/// An element of the type lattice, supplied by the host.
///
/// Two constructors with the same key have the same shape and are merged
/// with `join` (positive occurrences) or `meet` (negative occurrences).
pub trait Constructor: Sized {
    spec fn spec_key(&self) -> u64;

    spec fn spec_join(&self, other: &Self) -> Self;

    spec fn spec_meet(&self, other: &Self) -> Self;

    fn key(&self) -> (k: u64)
        ensures
            k == self.spec_key(),
    ;

    fn join(&mut self, other: &Self)
        requires
            old(self).spec_key() == other.spec_key(),
        ensures
            *final(self) == old(self).spec_join(other),
    ;

    fn meet(&mut self, other: &Self)
        requires
            old(self).spec_key() == other.spec_key(),
        ensures
            *final(self) == old(self).spec_meet(other),
    ;

    fn duplicate(&self) -> (r: Self)
        ensures
            r == *self,
    ;

    /// Merging keeps the key.
    proof fn lemma_merge_keeps_key(a: &Self, b: &Self)
        requires
            a.spec_key() == b.spec_key(),
        ensures
            a.spec_join(b).spec_key() == a.spec_key(),
            a.spec_meet(b).spec_key() == a.spec_key(),
    ;

    /// `join` is commutative, associative and idempotent on one key.
    proof fn lemma_join_laws(a: &Self, b: &Self, c: &Self)
        requires
            a.spec_key() == b.spec_key(),
            b.spec_key() == c.spec_key(),
        ensures
            a.spec_join(b) == b.spec_join(a),
            a.spec_join(b).spec_join(c) == a.spec_join(&b.spec_join(c)),
            a.spec_join(a) == *a,
    ;
}

/// Position of the entry with key `k`, if there is one.
pub open spec fn index_of<C: Constructor>(s: Seq<C>, k: u64) -> Option<int> {
    if exists|i: int| 0 <= i < s.len() && (#[trigger] s[i]).spec_key() == k {
        Some(choose|i: int| 0 <= i < s.len() && (#[trigger] s[i]).spec_key() == k)
    } else {
        None
    }
}

/// No two entries share a key.
pub open spec fn keys_unique<C: Constructor>(s: Seq<C>) -> bool {
    forall|i: int, j: int|
        0 <= i < s.len() && 0 <= j < s.len() && i != j ==> (#[trigger] s[i]).spec_key()
            != (#[trigger] s[j]).spec_key()
}

/// The entries after adding `c` positively.
pub open spec fn added_pos<C: Constructor>(s: Seq<C>, c: C) -> Seq<C> {
    match index_of(s, c.spec_key()) {
        Some(i) => s.update(i, s[i].spec_join(&c)),
        None => s.push(c),
    }
}

/// The entries after adding `c` negatively.
pub open spec fn added_neg<C: Constructor>(s: Seq<C>, c: C) -> Seq<C> {
    match index_of(s, c.spec_key()) {
        Some(i) => s.update(i, s[i].spec_meet(&c)),
        None => s.push(c),
    }
}

/// The entries after adding each of `o`, in order, positively.
pub open spec fn joined<C: Constructor>(s: Seq<C>, o: Seq<C>) -> Seq<C>
    decreases o.len(),
{
    if o.len() == 0 {
        s
    } else {
        added_pos(joined(s, o.drop_last()), o.last())
    }
}

/// The entries after adding each of `o`, in order, negatively.
pub open spec fn met<C: Constructor>(s: Seq<C>, o: Seq<C>) -> Seq<C>
    decreases o.len(),
{
    if o.len() == 0 {
        s
    } else {
        added_neg(met(s, o.drop_last()), o.last())
    }
}

/// The constructors known of one state, keyed by shape.
pub struct ConstructorSet<C: Constructor> {
    pub set: Vec<C>,
}

impl<C: Constructor> View for ConstructorSet<C> {
    type V = Seq<C>;

    open spec fn view(&self) -> Seq<C> {
        self.set@
    }
}

proof fn lemma_index_found<C: Constructor>(s: Seq<C>, k: u64, i: int)
    requires
        keys_unique(s),
        0 <= i < s.len(),
        s[i].spec_key() == k,
    ensures
        index_of(s, k) == Some(i),
{
}

proof fn lemma_added_unique<C: Constructor>(s: Seq<C>, c: C)
    requires
        keys_unique(s),
    ensures
        keys_unique(added_pos(s, c)),
        keys_unique(added_neg(s, c)),
{
    if let Some(i) = index_of(s, c.spec_key()) {
        C::lemma_merge_keeps_key(&s[i], &c);
    }
}

impl<C: Constructor> ConstructorSet<C> {
    pub open spec fn wf(&self) -> bool {
        keys_unique(self@)
    }

    pub fn new() -> (r: Self)
        ensures
            r@ == Seq::<C>::empty(),
            r.wf(),
    {
        ConstructorSet { set: Vec::new() }
    }

    fn find(&self, k: u64) -> (r: Option<usize>)
        requires
            self.wf(),
        ensures
            match r {
                Some(i) => index_of(self@, k) == Some(i as int),
                None => index_of(self@, k) is None,
            },
    {
        let mut i: usize = 0;
        while i < self.set.len()
            invariant
                i <= self.set@.len(),
                self.wf(),
                forall|j: int| 0 <= j < i ==> (#[trigger] self.set@[j]).spec_key() != k,
            decreases self.set@.len() - i,
        {
            if self.set[i].key() == k {
                proof {
                    lemma_index_found(self@, k, i as int);
                }
                return Some(i);
            }
            i = i + 1;
        }
        None
    }

    /// Adds a positive fact: joins `con` into the entry of its key, or inserts it.
    pub fn add_pos(&mut self, con: C)
        requires
            old(self).wf(),
        ensures
            final(self).wf(),
            final(self)@ == added_pos(old(self)@, con),
    {
        proof {
            lemma_added_unique(self@, con);
        }
        match self.find(con.key()) {
            Some(i) => {
                self.set[i].join(&con);
            },
            None => {
                self.set.push(con);
            },
        }
    }

    /// Adds a negative fact: meets `con` into the entry of its key, or inserts it.
    pub fn add_neg(&mut self, con: C)
        requires
            old(self).wf(),
        ensures
            final(self).wf(),
            final(self)@ == added_neg(old(self)@, con),
    {
        proof {
            lemma_added_unique(self@, con);
        }
        match self.find(con.key()) {
            Some(i) => {
                self.set[i].meet(&con);
            },
            None => {
                self.set.push(con);
            },
        }
    }

    /// Adds every entry of `other` positively.
    pub fn join(&mut self, other: &Self)
        requires
            old(self).wf(),
        ensures
            final(self).wf(),
            final(self)@ == joined(old(self)@, other@),
    {
        let ghost start = self@;
        let mut i: usize = 0;
        while i < other.set.len()
            invariant
                i <= other@.len(),
                self.wf(),
                self@ == joined(start, other@.subrange(0, i as int)),
            decreases other@.len() - i,
        {
            let c = other.set[i].duplicate();
            self.add_pos(c);
            proof {
                let o = other@.subrange(0, i + 1);
                assert(o.drop_last() == other@.subrange(0, i as int));
            }
            i = i + 1;
        }
        proof {
            assert(other@.subrange(0, i as int) == other@);
        }
    }

    /// Adds every entry of `other` negatively.
    pub fn meet(&mut self, other: &Self)
        requires
            old(self).wf(),
        ensures
            final(self).wf(),
            final(self)@ == met(old(self)@, other@),
    {
        let ghost start = self@;
        let mut i: usize = 0;
        while i < other.set.len()
            invariant
                i <= other@.len(),
                self.wf(),
                self@ == met(start, other@.subrange(0, i as int)),
            decreases other@.len() - i,
        {
            let c = other.set[i].duplicate();
            self.add_neg(c);
            proof {
                let o = other@.subrange(0, i + 1);
                assert(o.drop_last() == other@.subrange(0, i as int));
            }
            i = i + 1;
        }
        proof {
            assert(other@.subrange(0, i as int) == other@);
        }
    }

    /// A copy of the set.
    pub fn duplicate(&self) -> (r: Self)
        ensures
            r@ == self@,
    {
        let mut set: Vec<C> = Vec::new();
        let mut i: usize = 0;
        while i < self.set.len()
            invariant
                i <= self@.len(),
                set@ == self@.subrange(0, i as int),
            decreases self@.len() - i,
        {
            set.push(self.set[i].duplicate());
            i = i + 1;
        }
        assert(self@.subrange(0, i as int) == self@);
        ConstructorSet { set }
    }

    pub fn len(&self) -> (r: usize)
        ensures
            r == self@.len(),
    {
        self.set.len()
    }

    /// The entry at position `i`.
    pub fn get(&self, i: usize) -> (r: &C)
        requires
            i < self@.len(),
        ensures
            *r == self@[i as int],
    {
        &self.set[i]
    }

    /// The entry of key `k`, if any.
    pub fn lookup(&self, k: u64) -> (r: Option<&C>)
        requires
            self.wf(),
        ensures
            match index_of(self@, k) {
                Some(i) => r == Some(&self@[i]),
                None => r is None,
            },
    {
        match self.find(k) {
            Some(i) => Some(&self.set[i]),
            None => None,
        }
    }
}

/// Adding two constructors of one key to an empty set, in either order, leaves
/// one entry, and the same one either way.
pub proof fn lemma_join_order_irrelevant<C: Constructor>(a: C, b: C)
    requires
        a.spec_key() == b.spec_key(),
    ensures
        added_pos(added_pos(Seq::<C>::empty(), a), b).len() == 1,
        added_pos(added_pos(Seq::<C>::empty(), a), b) == added_pos(added_pos(Seq::<C>::empty(), b), a),
{
    let e = Seq::<C>::empty();
    assert(index_of(e, a.spec_key()) is None);
    assert(index_of(e, b.spec_key()) is None);
    let sa = added_pos(e, a);
    let sb = added_pos(e, b);
    assert(sa[0] == a);
    assert(sb[0] == b);
    lemma_index_found(sa, b.spec_key(), 0);
    lemma_index_found(sb, a.spec_key(), 0);
    C::lemma_join_laws(&a, &b, &b);
    assert(added_pos(sa, b) =~= added_pos(sb, a));
}

/// Adding the same constructor positively twice gives the set that adding it
/// once gives.
pub proof fn lemma_add_pos_idempotent<C: Constructor>(s: Seq<C>, c: C)
    requires
        keys_unique(s),
    ensures
        added_pos(added_pos(s, c), c) == added_pos(s, c),
{
    let k = c.spec_key();
    let s1 = added_pos(s, c);
    lemma_added_unique(s, c);
    match index_of(s, k) {
        Some(i) => {
            C::lemma_merge_keeps_key(&s[i], &c);
            lemma_index_found(s1, k, i);
            C::lemma_join_laws(&s[i], &c, &c);
            C::lemma_join_laws(&c, &c, &c);
            assert(added_pos(s1, c) =~= s1);
        },
        None => {
            lemma_index_found(s1, k, s.len() as int);
            C::lemma_join_laws(&c, &c, &c);
            assert(added_pos(s1, c) =~= s1);
        },
    }
}

/// A shape identified by `key`, refined by a `level`: joining keeps the larger
/// level, meeting the smaller.
#[derive(Clone, Copy, Debug, PartialEq, Eq, Structural)]
pub struct Shape {
    pub key: u64,
    pub level: u64,
}

impl Constructor for Shape {
    open spec fn spec_key(&self) -> u64 {
        self.key
    }

    open spec fn spec_join(&self, other: &Self) -> Self {
        Shape { key: self.key, level: if self.level >= other.level { self.level } else { other.level } }
    }

    open spec fn spec_meet(&self, other: &Self) -> Self {
        Shape { key: self.key, level: if self.level <= other.level { self.level } else { other.level } }
    }

    fn key(&self) -> (k: u64) {
        self.key
    }

    fn join(&mut self, other: &Self) {
        if other.level > self.level {
            self.level = other.level;
        }
    }

    fn meet(&mut self, other: &Self) {
        if other.level < self.level {
            self.level = other.level;
        }
    }

    fn duplicate(&self) -> (r: Self) {
        *self
    }

    proof fn lemma_merge_keeps_key(a: &Self, b: &Self) {
    }

    proof fn lemma_join_laws(a: &Self, b: &Self, c: &Self) {
    }
}

} // verus!
