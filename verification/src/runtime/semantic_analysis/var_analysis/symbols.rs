//! Finite sets of symbols.

use crate::runtime::interner::Symbol;
use vstd::prelude::*;

verus! {

/// A finite set of symbols.
#[derive(Debug, Clone)]
pub struct SymbolSet {
    pub items: Vec<Symbol>,
}

impl View for SymbolSet {
    type V = Set<Symbol>;

    open spec fn view(&self) -> Set<Symbol> {
        Set::new(|s: Symbol| self.items@.contains(s))
    }
}

impl DeepView for SymbolSet {
    type V = Set<Symbol>;

    open spec fn deep_view(&self) -> Set<Symbol> {
        self@
    }
}

impl SymbolSet {
    /// The empty set.
    pub fn new() -> (r: SymbolSet)
        ensures
            r@ == Set::<Symbol>::empty(),
    {
        let r = SymbolSet { items: Vec::new() };
        assert(r@ =~= Set::<Symbol>::empty());
        r
    }

    /// The set that holds `s` alone.
    pub fn of(s: Symbol) -> (r: SymbolSet)
        ensures
            r@ == set![s],
    {
        let mut r = SymbolSet::new();
        r.insert(s);
        r
    }

    /// Whether `s` is in the set.
    pub fn contains(&self, s: &Symbol) -> (r: bool)
        ensures
            r == self@.contains(*s),
    {
        for i in 0..self.items.len()
            invariant
                forall|j: int| 0 <= j < i ==> self.items@[j] != *s,
        {
            if self.items[i] == *s {
                assert(self.items@[i as int] == *s);
                return true;
            }
        }
        false
    }

    /// Whether the set is empty.
    pub fn is_empty(&self) -> (r: bool)
        ensures
            r == (self@ == Set::<Symbol>::empty()),
    {
        if self.items.len() == 0 {
            assert(self@ =~= Set::<Symbol>::empty());
            true
        } else {
            assert(self.items@.contains(self.items@[0]));
            assert(self@.contains(self.items@[0]));
            false
        }
    }

    /// Adds `s`.
    pub fn insert(&mut self, s: Symbol)
        ensures
            final(self)@ == old(self)@.insert(s),
    {
        if !self.contains(&s) {
            self.items.push(s);
            let ghost now = self.items@;
            let ghost before = old(self).items@;
            assert forall|q: Symbol| now.contains(q) <==> before.contains(q) || q == s by {
                if before.contains(q) {
                    let i = choose|i: int| 0 <= i < before.len() && before[i] == q;
                    assert(now[i] == q);
                }
                if now.contains(q) && q != s {
                    let i = choose|i: int| 0 <= i < now.len() && now[i] == q;
                    assert(before[i] == q);
                }
                assert(now[before.len() as int] == s);
            }
            assert(self@ =~= old(self)@.insert(s));
        } else {
            assert(self@ =~= old(self)@.insert(s));
        }
    }

    /// Adds every item of `other`.
    pub fn extend(&mut self, other: &SymbolSet)
        ensures
            final(self)@ == old(self)@.union(other@),
    {
        let ghost before = self@;
        let ghost t = other.items@;
        for i in 0..other.items.len()
            invariant
                t == other.items@,
                forall|q: Symbol| #[trigger]
                    self@.contains(q) <==> before.contains(q) || t.take(i as int).contains(q),
        {
            let ghost prior = self@;
            self.insert(other.items[i]);
            assert(self@ == prior.insert(t[i as int]));
            assert forall|q: Symbol| #[trigger]
                self@.contains(q) <==> before.contains(q) || t.take(i + 1).contains(q) by {
                lemma_take_contains(t, i as int, q);
                assert(self@.contains(q) == (prior.contains(q) || q == t[i as int]));
            }
        }
        assert(t.take(t.len() as int) =~= t);
        assert(self@ =~= before.union(other@));
    }

    /// A copy of the set.
    pub fn dup(&self) -> (r: SymbolSet)
        ensures
            r@ == self@,
    {
        let mut r = SymbolSet::new();
        r.extend(self);
        assert(r@ =~= self@);
        r
    }

    /// The items that are not in `other`.
    pub fn difference(&self, other: &SymbolSet) -> (r: SymbolSet)
        ensures
            r@ == self@.difference(other@),
    {
        let mut r = SymbolSet::new();
        let ghost t = self.items@;
        for i in 0..self.items.len()
            invariant
                t == self.items@,
                forall|q: Symbol|
                    r@.contains(q) <==> t.take(i as int).contains(q) && !other@.contains(q),
        {
            let ghost before = r@;
            if !other.contains(&self.items[i]) {
                r.insert(self.items[i]);
            }
            assert forall|q: Symbol|
                r@.contains(q) <==> t.take(i + 1).contains(q) && !other@.contains(q) by {
                lemma_take_contains(t, i as int, q);
            }
        }
        assert(t.take(t.len() as int) =~= t);
        assert(r@ =~= self@.difference(other@));
        r
    }

    /// The items that are in `other` too.
    pub fn intersection(&self, other: &SymbolSet) -> (r: SymbolSet)
        ensures
            r@ == self@.intersect(other@),
    {
        let mut r = SymbolSet::new();
        let ghost t = self.items@;
        for i in 0..self.items.len()
            invariant
                t == self.items@,
                forall|q: Symbol|
                    r@.contains(q) <==> t.take(i as int).contains(q) && other@.contains(q),
        {
            if other.contains(&self.items[i]) {
                r.insert(self.items[i]);
            }
            assert forall|q: Symbol|
                r@.contains(q) <==> t.take(i + 1).contains(q) && other@.contains(q) by {
                lemma_take_contains(t, i as int, q);
            }
        }
        assert(t.take(t.len() as int) =~= t);
        assert(r@ =~= self@.intersect(other@));
        r
    }
}

/// What one more item adds to the front of a sequence.
pub proof fn lemma_take_contains<T>(t: Seq<T>, i: int, q: T)
    requires
        0 <= i < t.len(),
    ensures
        t.take(i + 1).contains(q) <==> t.take(i).contains(q) || q == t[i],
{
    if t.take(i).contains(q) {
        let k = choose|k: int| 0 <= k < i && t.take(i)[k] == q;
        assert(t.take(i + 1)[k] == q);
    }
    assert(t.take(i + 1)[i] == t[i]);
    if t.take(i + 1).contains(q) && q != t[i] {
        let u = t.take(i + 1);
        let k = choose|k: int| 0 <= k < u.len() && u[k] == q;
        assert(t.take(i)[k] == q);
    }
}

} // verus!
