//! Tables: association lists with one entry for each key, in the order in
//! which the keys were first added.

use crate::runtime::interner::Symbol;
use vstd::prelude::*;

verus! {

/// The place of the first entry for `k`, or the length where there is none.
pub open spec fn slot<K, V>(s: Seq<(K, V)>, k: K) -> nat
    decreases s.len(),
{
    if s.len() == 0 {
        0
    } else if s[0].0 == k {
        0
    } else {
        1 + slot(s.drop_first(), k)
    }
}

/// Whether the table has an entry for `k`.
pub open spec fn bound<K, V>(s: Seq<(K, V)>, k: K) -> bool {
    slot(s, k) < s.len()
}

/// What the table holds for `k`.
pub open spec fn get<K, V>(s: Seq<(K, V)>, k: K) -> Option<V> {
    if bound(s, k) {
        Some(s[slot(s, k) as int].1)
    } else {
        None
    }
}

/// The table with `k` bound to `v`: in place where `k` was there, else at the end.
pub open spec fn put<K, V>(s: Seq<(K, V)>, k: K, v: V) -> Seq<(K, V)> {
    if bound(s, k) {
        s.update(slot(s, k) as int, (k, v))
    } else {
        s.push((k, v))
    }
}

/// The table without its entry for `k`.
pub open spec fn without<K, V>(s: Seq<(K, V)>, k: K) -> Seq<(K, V)> {
    if bound(s, k) {
        s.remove(slot(s, k) as int)
    } else {
        s
    }
}

/// No key has two entries.
pub open spec fn keys_distinct<K, V>(s: Seq<(K, V)>) -> bool {
    forall|i: int, j: int| 0 <= i < j < s.len() ==> (#[trigger] s[i]).0 != (#[trigger] s[j]).0
}

/// The sequence with `x` at its end, unless it is there already.
pub open spec fn added<T>(s: Seq<T>, x: T) -> Seq<T> {
    if s.contains(x) {
        s
    } else {
        s.push(x)
    }
}

/// `slot` is the first place.
pub proof fn lemma_slot<K, V>(s: Seq<(K, V)>, k: K)
    ensures
        slot(s, k) <= s.len(),
        slot(s, k) < s.len() ==> s[slot(s, k) as int].0 == k,
        forall|j: int| 0 <= j < slot(s, k) ==> (#[trigger] s[j]).0 != k,
    decreases s.len(),
{
    if s.len() > 0 && s[0].0 != k {
        let rest = s.drop_first();
        lemma_slot(rest, k);
        assert forall|j: int| 0 <= j < slot(s, k) implies (#[trigger] s[j]).0 != k by {
            if j > 0 {
                assert(rest[j - 1].0 != k);
            }
        }
    }
}

/// The first place is the only one with no entry for `k` before it.
pub proof fn lemma_slot_is<K, V>(s: Seq<(K, V)>, k: K, i: int)
    requires
        0 <= i <= s.len(),
        i < s.len() ==> s[i].0 == k,
        forall|j: int| 0 <= j < i ==> (#[trigger] s[j]).0 != k,
    ensures
        slot(s, k) == i,
{
    lemma_slot(s, k);
}

/// An entry for `k` anywhere means that the table has one.
pub proof fn lemma_bound<K, V>(s: Seq<(K, V)>, k: K, i: int)
    requires
        0 <= i < s.len(),
        s[i].0 == k,
    ensures
        bound(s, k),
        slot(s, k) <= i,
{
    lemma_slot(s, k);
}

/// What a table holds after `put`.
pub proof fn lemma_put<K, V>(s: Seq<(K, V)>, k: K, v: V, q: K)
    ensures
        get(put(s, k, v), k) == Some(v),
        q != k ==> get(put(s, k, v), q) == get(s, q),
        bound(put(s, k, v), q) == (q == k || bound(s, q)),
        keys_distinct(s) ==> keys_distinct(put(s, k, v)),
{
    lemma_slot(s, k);
    lemma_slot(s, q);
    let t = put(s, k, v);
    let i = slot(s, k) as int;
    assert(t[i] == (k, v));
    assert(forall|j: int| 0 <= j < s.len() && j != i ==> #[trigger] t[j] == s[j]);
    lemma_slot_is(t, k, i);
    if q != k {
        if bound(s, q) {
            lemma_slot_is(t, q, slot(s, q) as int);
        } else {
            lemma_slot_is(t, q, t.len() as int);
        }
    }
}

/// What a table holds after `without`.
pub proof fn lemma_without<K, V>(s: Seq<(K, V)>, k: K, q: K)
    requires
        keys_distinct(s),
    ensures
        !bound(without(s, k), k),
        q != k ==> get(without(s, k), q) == get(s, q),
        keys_distinct(without(s, k)),
{
    lemma_slot(s, k);
    lemma_slot(s, q);
    let t = without(s, k);
    let i = slot(s, k) as int;
    if bound(s, k) {
        assert(forall|j: int| 0 <= j < i ==> #[trigger] t[j] == s[j]);
        assert(forall|j: int| i <= j < t.len() ==> #[trigger] t[j] == s[j + 1]);
        assert forall|a: int, b: int| 0 <= a < b < t.len() implies (#[trigger] t[a]).0 != (
        #[trigger] t[b]).0 by {
            let a2 = if a < i { a } else { a + 1 };
            let b2 = if b < i { b } else { b + 1 };
            assert(s[a2].0 != s[b2].0);
        }
        lemma_slot_is(t, k, t.len() as int);
        if q != k {
            let p = slot(s, q) as int;
            if bound(s, q) {
                lemma_slot_is(t, q, if p < i { p } else { p - 1 });
            } else {
                lemma_slot_is(t, q, t.len() as int);
            }
        }
    }
}

/// Values that can be copied and compared.
pub trait Plain: DeepView + Sized {
    /// A copy of the value.
    fn dup(&self) -> (r: Self)
        ensures
            r.deep_view() == self.deep_view(),
    ;

    /// Whether the two values are the same.
    fn same(&self, other: &Self) -> (r: bool)
        ensures
            r == (self.deep_view() == other.deep_view()),
    ;
}

impl Plain for Symbol {
    fn dup(&self) -> (r: Self) {
        *self
    }

    fn same(&self, other: &Self) -> (r: bool) {
        *self == *other
    }
}

impl Plain for u64 {
    fn dup(&self) -> (r: Self) {
        *self
    }

    fn same(&self, other: &Self) -> (r: bool) {
        *self == *other
    }
}

impl Plain for String {
    fn dup(&self) -> (r: Self) {
        self.clone()
    }

    fn same(&self, other: &Self) -> (r: bool) {
        *self == *other
    }
}

impl<A: Plain, B: Plain> Plain for (A, B) {
    fn dup(&self) -> (r: Self) {
        (self.0.dup(), self.1.dup())
    }

    fn same(&self, other: &Self) -> (r: bool) {
        self.0.same(&other.0) && self.1.same(&other.1)
    }
}

impl<T: Plain> Plain for Option<T> {
    fn dup(&self) -> (r: Self) {
        match self {
            Some(x) => Some(x.dup()),
            None => None,
        }
    }

    fn same(&self, other: &Self) -> (r: bool) {
        match (self, other) {
            (Some(x), Some(y)) => x.same(y),
            (None, None) => true,
            _ => false,
        }
    }
}

impl<T: Plain> Plain for Vec<T> {
    fn dup(&self) -> (r: Self) {
        let mut out: Vec<T> = Vec::new();
        for i in 0..self.len()
            invariant
                out@.len() == i,
                forall|j: int|
                    0 <= j < i ==> (#[trigger] out@[j]).deep_view() == self@[j].deep_view(),
        {
            out.push(self[i].dup());
        }
        assert(out.deep_view() =~= self.deep_view());
        out
    }

    fn same(&self, other: &Self) -> (r: bool) {
        if self.len() != other.len() {
            assert(self.deep_view().len() != other.deep_view().len());
            return false;
        }
        for i in 0..self.len()
            invariant
                self@.len() == other@.len(),
                forall|j: int|
                    0 <= j < i ==> (#[trigger] self@[j]).deep_view() == other@[j].deep_view(),
        {
            if !self[i].same(&other[i]) {
                assert(self.deep_view()[i as int] != other.deep_view()[i as int]);
                return false;
            }
        }
        assert(self.deep_view() =~= other.deep_view());
        true
    }
}

/// Whether `x` is among `v`.
pub fn holds<T: Plain>(v: &Vec<T>, x: &T) -> (r: bool)
    ensures
        r == v.deep_view().contains(x.deep_view()),
{
    for i in 0..v.len()
        invariant
            forall|j: int| 0 <= j < i ==> v.deep_view()[j] != x.deep_view(),
    {
        if v[i].same(x) {
            assert(v.deep_view()[i as int] == x.deep_view());
            return true;
        }
    }
    false
}

/// Adds `x` to `v` unless it is there.
pub fn include_item<T: Plain>(v: &mut Vec<T>, x: T)
    ensures
        final(v).deep_view() == added(old(v).deep_view(), x.deep_view()),
{
    if !holds(v, &x) {
        v.push(x);
        assert(v.deep_view() =~= old(v).deep_view().push(x.deep_view()));
    }
}

/// An association list.
#[derive(Debug, Clone)]
pub struct Table<K, V> {
    pub entries: Vec<(K, V)>,
}

impl<K: DeepView, V: DeepView> DeepView for Table<K, V> {
    type V = Seq<(K::V, V::V)>;

    open spec fn deep_view(&self) -> Seq<(K::V, V::V)> {
        self.entries.deep_view()
    }
}

impl<K: Plain, V: DeepView> Table<K, V> {
    /// The empty table.
    pub fn new() -> (r: Table<K, V>)
        ensures
            r.deep_view() == Seq::<(K::V, V::V)>::empty(),
    {
        let r = Table { entries: Vec::new() };
        assert(r.deep_view() =~= Seq::<(K::V, V::V)>::empty());
        r
    }

    /// How many entries there are.
    pub fn len(&self) -> (r: usize)
        ensures
            r == self.deep_view().len(),
    {
        self.entries.len()
    }

    /// The place of the entry for `k`, or the length where there is none.
    pub fn find(&self, k: &K) -> (r: usize)
        ensures
            r == slot(self.deep_view(), k.deep_view()),
            r <= self.deep_view().len(),
            r < self.deep_view().len() <==> bound(self.deep_view(), k.deep_view()),
            r < self.deep_view().len() ==> self.deep_view()[r as int].0 == k.deep_view(),
    {
        let ghost s = self.deep_view();
        for i in 0..self.entries.len()
            invariant
                s == self.deep_view(),
                s.len() == self.entries@.len(),
                forall|j: int| 0 <= j < i ==> (#[trigger] s[j]).0 != k.deep_view(),
        {
            if self.entries[i].0.same(k) {
                proof {
                    assert(s[i as int].0 == k.deep_view());
                    lemma_slot_is(s, k.deep_view(), i as int);
                }
                return i;
            }
            assert(s[i as int].0 != k.deep_view());
        }
        proof {
            lemma_slot_is(s, k.deep_view(), s.len() as int);
        }
        self.entries.len()
    }

    /// Whether there is an entry for `k`.
    pub fn contains_key(&self, k: &K) -> (r: bool)
        ensures
            r == bound(self.deep_view(), k.deep_view()),
    {
        self.find(k) < self.entries.len()
    }

    /// The entry for `k`.
    pub fn get(&self, k: &K) -> (r: Option<&V>)
        ensures
            r is Some <==> bound(self.deep_view(), k.deep_view()),
            r matches Some(v) ==> get(self.deep_view(), k.deep_view()) == Some(v.deep_view()),
    {
        let i = self.find(k);
        if i < self.entries.len() {
            Some(&self.entries[i].1)
        } else {
            None
        }
    }

    /// The entry at place `i`.
    pub fn at_mut(&mut self, i: usize) -> (r: &mut V)
        requires
            i < old(self).deep_view().len(),
        ensures
            (*r).deep_view() == old(self).deep_view()[i as int].1,
            final(self).deep_view() == old(self).deep_view().update(
                i as int,
                (old(self).deep_view()[i as int].0, (*final(r)).deep_view()),
            ),
    {
        &mut self.entries[i].1
    }

    /// The entry for `k`, to be changed in place.
    pub fn get_mut(&mut self, k: &K) -> (r: Option<&mut V>)
        ensures
            r is Some <==> bound(old(self).deep_view(), k.deep_view()),
            r is None ==> final(self).deep_view() == old(self).deep_view(),
            r matches Some(v) ==> get(old(self).deep_view(), k.deep_view()) == Some(
                (*v).deep_view(),
            ),
            r matches Some(v) ==> final(self).deep_view() == put(
                old(self).deep_view(),
                k.deep_view(),
                (*final(v)).deep_view(),
            ),
    {
        let i = self.find(k);
        if i < self.entries.len() {
            Some(self.at_mut(i))
        } else {
            None
        }
    }

    /// Whether there are no entries.
    pub fn is_empty(&self) -> (r: bool)
        ensures
            r == (self.deep_view().len() == 0),
    {
        self.entries.len() == 0
    }

    /// Binds `k` to `v`.
    pub fn insert(&mut self, k: K, v: V)
        ensures
            final(self).deep_view() == put(old(self).deep_view(), k.deep_view(), v.deep_view()),
    {
        let i = self.find(&k);
        if i < self.entries.len() {
            self.entries[i] = (k, v);
            assert(self.deep_view() =~= put(old(self).deep_view(), k.deep_view(), v.deep_view()));
        } else {
            self.entries.push((k, v));
            assert(self.deep_view() =~= put(old(self).deep_view(), k.deep_view(), v.deep_view()));
        }
    }

    /// Takes the entry for `k` out.
    pub fn remove(&mut self, k: &K) -> (r: Option<V>)
        ensures
            final(self).deep_view() == without(old(self).deep_view(), k.deep_view()),
            r is Some <==> bound(old(self).deep_view(), k.deep_view()),
            r matches Some(v) ==> get(old(self).deep_view(), k.deep_view()) == Some(v.deep_view()),
    {
        let i = self.find(k);
        if i < self.entries.len() {
            let e = self.entries.remove(i);
            assert(self.deep_view() =~= without(old(self).deep_view(), k.deep_view()));
            Some(e.1)
        } else {
            None
        }
    }
}

impl<K: Plain, V: Plain> Plain for Table<K, V> {
    fn dup(&self) -> (r: Self) {
        Table { entries: self.entries.dup() }
    }

    fn same(&self, other: &Self) -> (r: bool) {
        self.entries.same(&other.entries)
    }
}

} // verus!
