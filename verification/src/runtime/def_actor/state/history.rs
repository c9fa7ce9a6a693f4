//! The changes that were applied, and which of them still count.
//!
//! Of each variable the latest write is known, with the change that it came in.
//! A change whose writes were all replaced by later ones is dropped.

use crate::runtime::def_actor::state::{ChangeId, ChangeTxnM, PropChange, PropChangeM, Txn};
use crate::runtime::table;
use crate::runtime::table::{holds, Plain, Table};
use crate::runtime::txn;
use crate::runtime::txn::TxnId;
use vstd::prelude::*;
use vstd::string::*;

verus! {

/// The changes that were applied.
#[derive(Debug, Clone)]
pub struct AppliedChanges {
    /// The changes that count, each with the variables of which it holds the
    /// latest write.
    pub undropped: Table<ChangeId, Vec<String>>,
    /// The changes that no longer count.
    pub dropped: Vec<ChangeId>,
    /// Of each variable the latest transaction that wrote it, and the change
    /// that it came in.
    pub write_to_changes: Table<String, (TxnId, ChangeId)>,
}

/// The model of [`AppliedChanges`].
pub struct AppliedM {
    pub undropped: Seq<(ChangeId, Seq<Seq<char>>)>,
    pub dropped: Seq<ChangeId>,
    pub latest: Seq<(Seq<char>, (TxnId, ChangeId))>,
}

impl DeepView for AppliedChanges {
    type V = AppliedM;

    open spec fn deep_view(&self) -> AppliedM {
        AppliedM {
            undropped: self.undropped.deep_view(),
            dropped: self.dropped.deep_view(),
            latest: self.write_to_changes.deep_view(),
        }
    }
}

impl AppliedM {
    /// Whether the latest write of the variable came in the change.
    pub open spec fn live(self, c: ChangeId, v: Seq<char>) -> bool {
        table::get(self.latest, v) matches Some(x) && x.1 == c
    }

    /// Whether the change was applied.
    pub open spec fn applied(self, c: ChangeId) -> bool {
        table::bound(self.undropped, c) || self.dropped.contains(c)
    }

    /// Whether the lists are right for all changes but `id`.
    pub open spec fn right_but(self, id: Option<ChangeId>) -> bool {
        &&& table::keys_distinct(self.undropped)
        &&& table::keys_distinct(self.latest)
        &&& forall|c: ChangeId, v: Seq<char>|
            Some(c) != id && #[trigger] self.live(c, v) ==> table::bound(self.undropped, c)
                && table::get(self.undropped, c)->Some_0.contains(v)
        &&& forall|c: ChangeId| #[trigger]
            table::bound(self.undropped, c) ==> {
                let vs = table::get(self.undropped, c)->Some_0;
                &&& Some(c) != id
                &&& vs.len() > 0
                &&& vs.no_duplicates()
                &&& !self.dropped.contains(c)
                &&& forall|k: int| 0 <= k < vs.len() ==> self.live(c, #[trigger] vs[k])
            }
    }

    /// Whether the lists are right: a change counts just where it holds the
    /// latest write of a variable, and is listed with all such variables.
    pub open spec fn right(self) -> bool {
        self.right_but(None)
    }
}

/// Whether a transaction writes the variable.
pub open spec fn writes(t: ChangeTxnM, v: Seq<char>) -> bool {
    exists|k: int| 0 <= k < t.assns.len() && (#[trigger] t.assns[k]).dest == v
}

/// The latest of the first `n` transactions that writes the variable.
pub open spec fn newest(preds: Seq<ChangeTxnM>, n: nat, v: Seq<char>) -> Option<TxnId>
    decreases n,
{
    if n == 0 {
        None
    } else {
        let r = newest(preds, (n - 1) as nat, v);
        if writes(preds[n - 1], v) {
            later(r, preds[n - 1].id)
        } else {
            r
        }
    }
}

/// The later of two transactions, the first of which may be missing.
pub open spec fn later(a: Option<TxnId>, b: TxnId) -> Option<TxnId> {
    match a {
        None => Some(b),
        Some(x) => if txn::older(x, b) {
            Some(b)
        } else {
            Some(x)
        },
    }
}

/// What is the latest write of a variable once a change is applied.
pub open spec fn superseded(
    now: Option<(TxnId, ChangeId)>,
    change: PropChangeM,
    v: Seq<char>,
) -> Option<(TxnId, ChangeId)> {
    match newest(change.preds, change.preds.len(), v) {
        None => now,
        Some(t) => match now {
            None => Some((t, change.id)),
            Some(x) => if txn::older(x.0, t) {
                Some((t, change.id))
            } else {
                now
            },
        },
    }
}

/// The latest of a change's transactions that write a variable is one of them,
/// and none of them is later.
pub proof fn law_newest(preds: Seq<ChangeTxnM>, n: nat, v: Seq<char>)
    requires
        n <= preds.len(),
    ensures
        match newest(preds, n, v) {
            None => forall|i: int| 0 <= i < n ==> !writes(#[trigger] preds[i], v),
            Some(t) => (exists|i: int|
                0 <= i < n && writes(#[trigger] preds[i], v) && preds[i].id == t) && forall|i: int|
                0 <= i < n && writes(#[trigger] preds[i], v) ==> !txn::older(t, preds[i].id),
        },
    decreases n,
{
    if n > 0 {
        law_newest(preds, (n - 1) as nat, v);
        if writes(preds[n - 1], v) {
            assert(newest(preds, n, v) is Some);
        }
    }
}

/// The writes of a transaction are taken into account.
fn note_writes(maxes: &mut Table<String, TxnId>, t: &Txn)
    requires
        table::keys_distinct(old(maxes).deep_view()),
    ensures
        table::keys_distinct(final(maxes).deep_view()),
        forall|v: Seq<char>| #[trigger]
            table::get(final(maxes).deep_view(), v) == (if writes(t.deep_view(), v) {
                later(table::get(old(maxes).deep_view(), v), t.id)
            } else {
                table::get(old(maxes).deep_view(), v)
            }),
{
    let ghost m0 = maxes.deep_view();
    let ghost a = t.deep_view().assns;
    for k in 0..t.assns.len()
        invariant
            a == t.deep_view().assns,
            a.len() == t.assns@.len(),
            table::keys_distinct(maxes.deep_view()),
            forall|v: Seq<char>| #[trigger]
                table::get(maxes.deep_view(), v) == (if (exists|j: int|
                    0 <= j < k && (#[trigger] a[j]).dest == v) {
                    later(table::get(m0, v), t.id)
                } else {
                    table::get(m0, v)
                }),
    {
        let ghost before = maxes.deep_view();
        let dest = t.assns[k].dest.clone();
        let ghost d = dest@;
        assert(a[k as int].dest == d);
        let replace = match maxes.get(&dest) {
            None => true,
            Some(x) => x.is_older(&t.id),
        };
        if replace {
            maxes.insert(dest, t.id);
        }
        proof {
            txn::law_age_is_total_order(t.id, t.id, t.id);
            assert forall|v: Seq<char>| #[trigger]
                table::get(maxes.deep_view(), v) == (if (exists|j: int|
                    0 <= j < k + 1 && (#[trigger] a[j]).dest == v) {
                    later(table::get(m0, v), t.id)
                } else {
                    table::get(m0, v)
                }) by {
                table::lemma_put(before, d, t.id, v);
                if v == d {
                    assert(a[k as int].dest == v);
                } else {
                    assert(forall|j: int|
                        0 <= j < k + 1 && (#[trigger] a[j]).dest == v ==> j < k);
                }
            }
            table::lemma_put(before, d, t.id, d);
        }
    }
    proof {
        assert forall|v: Seq<char>| #[trigger]
            table::get(maxes.deep_view(), v) == (if writes(t.deep_view(), v) {
                later(table::get(m0, v), t.id)
            } else {
                table::get(m0, v)
            }) by {
            assert(writes(t.deep_view(), v) <==> exists|j: int|
                0 <= j < a.len() && (#[trigger] a[j]).dest == v);
        }
    }
}

/// Of each variable that a change writes, the latest transaction that does.
fn newest_writes(change: &PropChange) -> (r: Table<String, TxnId>)
    ensures
        table::keys_distinct(r.deep_view()),
        forall|v: Seq<char>| #[trigger]
            table::get(r.deep_view(), v) == newest(
                change.deep_view().preds,
                change.deep_view().preds.len(),
                v,
            ),
{
    let ghost p = change.deep_view().preds;
    let mut out: Table<String, TxnId> = Table::new();
    for i in 0..change.preds.len()
        invariant
            p == change.deep_view().preds,
            table::keys_distinct(out.deep_view()),
            forall|v: Seq<char>| #[trigger] table::get(out.deep_view(), v) == newest(p, i as nat, v),
    {
        assert(p[i as int] == change.preds@[i as int].deep_view());
        note_writes(&mut out, &change.preds[i]);
    }
    out
}

/// The list without one of its items.
fn remove_item(vs: &mut Vec<String>, v: &String)
    requires
        old(vs).deep_view().no_duplicates(),
        old(vs).deep_view().contains(v@),
    ensures
        final(vs).deep_view().no_duplicates(),
        final(vs).deep_view().len() == old(vs).deep_view().len() - 1,
        forall|x: Seq<char>| #[trigger]
            final(vs).deep_view().contains(x) <==> old(vs).deep_view().contains(x) && x != v@,
{
    let ghost s = vs.deep_view();
    let mut i: usize = 0;
    while i < vs.len() && !vs[i].same(v)
        invariant
            s == vs.deep_view(),
            s.contains(v@),
            i <= vs@.len(),
            forall|j: int| 0 <= j < i ==> s[j] != v@,
        decreases vs@.len() - i,
    {
        i = i + 1;
    }
    proof {
        let k = choose|k: int| 0 <= k < s.len() && s[k] == v@;
        assert(k >= i);
        assert(s[i as int] == v@);
    }
    vs.remove(i);
    proof {
        let t = vs.deep_view();
        assert(t =~= s.remove(i as int));
        assert forall|x: Seq<char>| #[trigger] t.contains(x) <==> s.contains(x) && x != v@ by {
            if t.contains(x) {
                let j = choose|j: int| 0 <= j < t.len() && t[j] == x;
                let j2 = if j < i {
                    j
                } else {
                    j + 1
                };
                assert(s[j2] == x);
                assert(s[i as int] == v@);
            }
            if s.contains(x) && x != v@ {
                let j = choose|j: int| 0 <= j < s.len() && s[j] == x;
                assert(t[if j < i {
                    j
                } else {
                    j - 1
                }] == x);
            }
        }
    }
}

impl AppliedChanges {
    /// No change was applied.
    pub fn new() -> (r: AppliedChanges)
        ensures
            r.deep_view() == (AppliedM { undropped: seq![], dropped: seq![], latest: seq![] }),
            r.deep_view().right(),
    {
        let r = AppliedChanges {
            undropped: Table::new(),
            dropped: Vec::new(),
            write_to_changes: Table::new(),
        };
        proof {
            assert(r.dropped.deep_view() =~= Seq::<ChangeId>::empty());
            assert forall|v: Seq<char>| !table::bound(r.deep_view().latest, v) by {
                table::lemma_slot(r.deep_view().latest, v);
            }
            assert forall|c: ChangeId| !table::bound(r.deep_view().undropped, c) by {
                table::lemma_slot(r.deep_view().undropped, c);
            }
        }
        r
    }

    /// The change that held the latest write of a variable loses it.
    fn lose(&mut self, c: ChangeId, v: &String, Ghost(id): Ghost<ChangeId>)
        requires
            old(self).deep_view().right_but(Some(id)),
            old(self).deep_view().live(c, v@),
            c != id,
        ensures
            final(self).deep_view().latest == old(self).deep_view().latest,
            table::keys_distinct(final(self).deep_view().undropped),
            forall|q: ChangeId| #[trigger]
                final(self).deep_view().applied(q) == old(self).deep_view().applied(q),
            forall|q: ChangeId|
                q != c ==> #[trigger] table::get(final(self).deep_view().undropped, q)
                    == table::get(old(self).deep_view().undropped, q),
            forall|q: ChangeId| #[trigger]
                final(self).deep_view().dropped.contains(q) ==> q == c
                    || old(self).deep_view().dropped.contains(q),
            match table::get(final(self).deep_view().undropped, c) {
                Some(vs) => vs.len() > 0 && vs.no_duplicates()
                    && !final(self).deep_view().dropped.contains(c) && forall|x: Seq<char>|
                    #[trigger]
                    vs.contains(x) <==> old(self).deep_view().live(c, x) && x != v@,
                None => final(self).deep_view().dropped.contains(c) && forall|x: Seq<char>|
                    #[trigger]
                    old(self).deep_view().live(c, x) ==> x == v@,
            },
    {
        let ghost m0 = self.deep_view();
        let ghost vs0 = table::get(m0.undropped, c)->Some_0;
        proof {
            assert(m0.live(c, v@));
            assert(table::bound(m0.undropped, c));
            assert(vs0.contains(v@));
            assert forall|x: Seq<char>| vs0.contains(x) <==> m0.live(c, x) by {
                if vs0.contains(x) {
                    let k = choose|k: int| 0 <= k < vs0.len() && vs0[k] == x;
                    assert(m0.live(c, vs0[k]));
                }
            }
        }
        let mut empty = false;
        match self.undropped.get_mut(&c) {
            Some(vs) => {
                remove_item(vs, v);
                empty = vs.len() == 0;
            },
            None => {},
        }
        let ghost m1 = self.deep_view();
        let ghost vs1 = m1.undropped[table::slot(m0.undropped, c) as int].1;
        proof {
            table::lemma_slot(m0.undropped, c);
            assert(m1.undropped == table::put(m0.undropped, c, vs1));
            assert forall|q: ChangeId| q != c implies #[trigger] table::get(m1.undropped, q)
                == table::get(m0.undropped, q) by {
                table::lemma_put(m0.undropped, c, vs1, q);
            }
            table::lemma_put(m0.undropped, c, vs1, c);
        }
        if empty {
            self.undropped.remove(&c);
            self.dropped.push(c);
            proof {
                let m2 = self.deep_view();
                assert(m2.dropped =~= m1.dropped.push(c));
                table::lemma_without(m1.undropped, c, c);
                assert(m2.dropped[m1.dropped.len() as int] == c);
                assert forall|q: ChangeId| #[trigger] m2.dropped.contains(q) <==> q == c
                    || m0.dropped.contains(q) by {
                    if m0.dropped.contains(q) {
                        let k = choose|k: int| 0 <= k < m0.dropped.len() && m0.dropped[k] == q;
                        assert(m2.dropped[k] == q);
                    }
                    if m2.dropped.contains(q) && q != c {
                        let k = choose|k: int| 0 <= k < m2.dropped.len() && m2.dropped[k] == q;
                        assert(m0.dropped[k] == q);
                    }
                }
                assert forall|q: ChangeId| q != c implies #[trigger] table::get(m2.undropped, q)
                    == table::get(m0.undropped, q) by {
                    table::lemma_without(m1.undropped, c, q);
                    assert(table::get(m1.undropped, q) == table::get(m0.undropped, q));
                }
                assert forall|q: ChangeId| #[trigger] m2.applied(q) == m0.applied(q) by {
                    if q != c {
                        assert(table::get(m2.undropped, q) == table::get(m0.undropped, q));
                    }
                }
                assert forall|x: Seq<char>| #[trigger] m0.live(c, x) implies x == v@ by {
                    if x != v@ {
                        assert(vs0.contains(x));
                        assert(vs1.contains(x));
                    }
                }
            }
        } else {
            proof {
                assert forall|q: ChangeId| #[trigger] m1.applied(q) == m0.applied(q) by {
                    if q != c {
                        assert(table::get(m1.undropped, q) == table::get(m0.undropped, q));
                    }
                }
            }
        }
    }

    /// Applies a change. Of each variable that it writes, the latest write is
    /// then the later of the two; changes that hold no latest write any more
    /// are dropped.
    pub fn add_change(&mut self, change: &PropChange)
        requires
            old(self).deep_view().right(),
            !old(self).deep_view().applied(change.id),
        ensures
            final(self).deep_view().right(),
            forall|v: Seq<char>| #[trigger]
                table::get(final(self).deep_view().latest, v) == superseded(
                    table::get(old(self).deep_view().latest, v),
                    change.deep_view(),
                    v,
                ),
            forall|c: ChangeId| #[trigger]
                final(self).deep_view().applied(c) <==> c == change.id
                    || old(self).deep_view().applied(c),
    {
        let ghost m0 = self.deep_view();
        let ghost id = change.id;
        let ghost ch = change.deep_view();
        let maxes = newest_writes(change);
        let ghost mx = maxes.deep_view();
        let mut mine: Vec<String> = Vec::new();
        proof {
            assert(mine.deep_view() =~= Seq::<Seq<char>>::empty());
            assert forall|v: Seq<char>| !m0.live(id, v) by {
                if m0.live(id, v) {
                    assert(table::bound(m0.undropped, id));
                }
            }
            assert(m0.right_but(Some(id)));
        }
        for i in 0..maxes.entries.len()
            invariant
                mx == maxes.deep_view(),
                mx.len() == maxes.entries@.len(),
                table::keys_distinct(mx),
                id == change.id,
                ch == change.deep_view(),
                forall|v: Seq<char>| #[trigger]
                    table::get(mx, v) == newest(ch.preds, ch.preds.len(), v),
                self.deep_view().right_but(Some(id)),
                !self.deep_view().applied(id),
                mine.deep_view().no_duplicates(),
                forall|v: Seq<char>| #[trigger]
                    mine.deep_view().contains(v) <==> self.deep_view().live(id, v),
                forall|v: Seq<char>| #[trigger]
                    self.deep_view().live(id, v) ==> table::bound(mx, v) && table::slot(mx, v) < i,
                forall|v: Seq<char>| #[trigger]
                    table::get(self.deep_view().latest, v) == (if table::bound(mx, v)
                        && table::slot(mx, v) < i {
                        superseded(table::get(m0.latest, v), ch, v)
                    } else {
                        table::get(m0.latest, v)
                    }),
                forall|c: ChangeId| #[trigger]
                    self.deep_view().applied(c) == m0.applied(c),
        {
            let ghost m1 = self.deep_view();
            let ghost mine1 = mine.deep_view();
            let v = maxes.entries[i].0.clone();
            let t = maxes.entries[i].1;
            let ghost v1 = v@;
            proof {
                assert(mx[i as int] == (v1, t));
                assert forall|j: int| 0 <= j < i implies (#[trigger] mx[j]).0 != v1 by {
                    assert(mx[j].0 != mx[i as int].0);
                }
                table::lemma_slot_is(mx, v1, i as int);
                assert(table::get(mx, v1) == Some(t));
                assert(!m1.live(id, v1));
            }
            let held = match self.write_to_changes.get(&v) {
                None => None,
                Some(x) => Some((x.0, x.1)),
            };
            match held {
                None => {
                    self.write_to_changes.insert(v.clone(), (t, change.id));
                    mine.push(v);
                    proof {
                        let m2 = self.deep_view();
                        assert(mine.deep_view() =~= mine1.push(v1));
                        lemma_first_write(m1, m2, id, v1, t);
                        assert forall|c: ChangeId| #[trigger] m2.applied(c) == m0.applied(c) by {
                            assert(m1.applied(c) == m0.applied(c));
                        }
                        lemma_taken(m0, m1, m2, mx, i as int, ch, mine1, mine.deep_view());
                    }
                },
                Some((o, c)) => {
                    if o.is_older(&t) {
                        proof {
                            assert(m1.live(c, v1));
                            assert(c != id);
                        }
                        self.lose(c, &v, Ghost(id));
                        let ghost mid = self.deep_view();
                        self.write_to_changes.insert(v.clone(), (t, change.id));
                        mine.push(v);
                        proof {
                            let m2 = self.deep_view();
                            lemma_moved(m1, mid, m2, id, c, v1, t);
                            assert(mine.deep_view() =~= mine1.push(v1));
                            assert forall|q: ChangeId| #[trigger] m2.applied(q) == m0.applied(
                                q,
                            ) by {
                                assert(mid.applied(q) == m1.applied(q));
                                assert(m1.applied(q) == m0.applied(q));
                            }
                            lemma_taken(m0, m1, m2, mx, i as int, ch, mine1, mine.deep_view());
                        }
                    } else {
                        proof {
                            lemma_skipped(m0, m1, mx, i as int, ch);
                        }
                    }
                },
            }
        }
        let ghost m3 = self.deep_view();
        let ghost live = mine.deep_view();
        proof {
            assert forall|v: Seq<char>| #[trigger]
                table::get(m3.latest, v) == superseded(table::get(m0.latest, v), ch, v) by {
                table::lemma_slot(mx, v);
                assert(table::get(mx, v) == newest(ch.preds, ch.preds.len(), v));
            }
        }
        if mine.len() > 0 {
            self.undropped.insert(change.id, mine);
        } else {
            self.dropped.push(change.id);
        }
        proof {
            if live.len() == 0 {
                assert(self.deep_view().dropped =~= m3.dropped.push(id));
            }
            lemma_closed(m3, self.deep_view(), id, live);
        }
    }

    /// Whether a change was applied.
    pub fn has_change(&self, change: &ChangeId) -> (r: bool)
        ensures
            r == self.deep_view().applied(*change),
    {
        self.undropped.contains_key(change) || holds(&self.dropped, change)
    }

    /// The changes that count.
    pub fn get_undropped_changes(&self) -> (r: Vec<ChangeId>)
        ensures
            forall|c: ChangeId| #[trigger]
                r@.contains(c) <==> table::bound(self.deep_view().undropped, c),
            self.deep_view().right() ==> r@.no_duplicates(),
    {
        let ghost u = self.deep_view().undropped;
        let mut out: Vec<ChangeId> = Vec::new();
        for i in 0..self.undropped.entries.len()
            invariant
                u == self.deep_view().undropped,
                u.len() == self.undropped.entries@.len(),
                out@.len() == i,
                forall|j: int| 0 <= j < i ==> #[trigger] out@[j] == u[j].0,
        {
            assert(u[i as int] == self.undropped.entries@[i as int].deep_view());
            out.push(self.undropped.entries[i].0);
        }
        proof {
            assert forall|c: ChangeId| #[trigger] out@.contains(c) <==> table::bound(u, c) by {
                table::lemma_slot(u, c);
                if out@.contains(c) {
                    let k = choose|k: int| 0 <= k < out@.len() && out@[k] == c;
                    table::lemma_bound(u, c, k);
                }
                if table::bound(u, c) {
                    assert(out@[table::slot(u, c) as int] == c);
                }
            }
            if self.deep_view().right() {
                assert forall|a: int, b: int|
                    0 <= a < out@.len() && 0 <= b < out@.len() && a != b implies out@[a]
                    != out@[b] by {
                    if a < b {
                        assert(u[a].0 != u[b].0);
                    } else {
                        assert(u[b].0 != u[a].0);
                    }
                }
            }
        }
        out
    }

    /// All changes that were applied.
    pub fn get_all_applied_changes(&self) -> (r: Vec<ChangeId>)
        ensures
            forall|c: ChangeId| #[trigger] r@.contains(c) <==> self.deep_view().applied(c),
    {
        let mut out = self.get_undropped_changes();
        let ghost first = out@;
        let ghost d = self.dropped.deep_view();
        for i in 0..self.dropped.len()
            invariant
                d == self.dropped.deep_view(),
                out@ == first + d.take(i as int),
        {
            let ghost before = out@;
            out.push(self.dropped[i]);
            proof {
                assert(d.take(i + 1) =~= d.take(i as int).push(d[i as int]));
                assert(first + d.take(i + 1) =~= before.push(d[i as int]));
            }
        }
        proof {
            assert(d.take(d.len() as int) =~= d);
            assert forall|c: ChangeId| #[trigger]
                out@.contains(c) <==> self.deep_view().applied(c) by {
                if out@.contains(c) {
                    let k = choose|k: int| 0 <= k < out@.len() && out@[k] == c;
                    if k < first.len() {
                        assert(first[k] == c);
                        assert(first.contains(c));
                    } else {
                        assert(d[k - first.len()] == c);
                    }
                }
                if first.contains(c) {
                    let k = choose|k: int| 0 <= k < first.len() && first[k] == c;
                    assert(out@[k] == c);
                }
                if d.contains(c) {
                    let k = choose|k: int| 0 <= k < d.len() && d[k] == c;
                    assert(out@[first.len() + k] == c);
                }
                assert(first.contains(c) <==> table::bound(self.deep_view().undropped, c));
            }
        }
        out
    }
}

/// A variable is written for the first time.
proof fn lemma_first_write(m1: AppliedM, m2: AppliedM, id: ChangeId, v: Seq<char>, t: TxnId)
    requires
        m1.right_but(Some(id)),
        !table::bound(m1.latest, v),
        m2 == (AppliedM { latest: table::put(m1.latest, v, (t, id)), ..m1 }),
    ensures
        m2.right_but(Some(id)),
{
    table::lemma_put(m1.latest, v, (t, id), v);
    assert forall|q: ChangeId, x: Seq<char>| Some(q) != Some(id) && #[trigger] m2.live(
        q,
        x,
    ) implies table::bound(m2.undropped, q) && table::get(m2.undropped, q)->Some_0.contains(x) by {
        table::lemma_put(m1.latest, v, (t, id), x);
        assert(m1.live(q, x));
    }
    assert forall|q: ChangeId| #[trigger] table::bound(m2.undropped, q) implies {
        let vs = table::get(m2.undropped, q)->Some_0;
        &&& Some(q) != Some(id)
        &&& vs.len() > 0
        &&& vs.no_duplicates()
        &&& !m2.dropped.contains(q)
        &&& forall|k: int| 0 <= k < vs.len() ==> m2.live(q, #[trigger] vs[k])
    } by {
        let vs = table::get(m2.undropped, q)->Some_0;
        assert(table::bound(m1.undropped, q));
        assert forall|k: int| 0 <= k < vs.len() implies m2.live(q, #[trigger] vs[k]) by {
            assert(m1.live(q, vs[k]));
            table::lemma_put(m1.latest, v, (t, id), vs[k]);
        }
    }
}

/// A write moves from one change to another.
proof fn lemma_moved(
    m1: AppliedM,
    mid: AppliedM,
    m2: AppliedM,
    id: ChangeId,
    c: ChangeId,
    v: Seq<char>,
    t: TxnId,
)
    requires
        m1.right_but(Some(id)),
        m1.live(c, v),
        c != id,
        mid.latest == m1.latest,
        table::keys_distinct(mid.undropped),
        forall|q: ChangeId|
            q != c ==> #[trigger] table::get(mid.undropped, q) == table::get(m1.undropped, q),
        forall|q: ChangeId| #[trigger]
            mid.dropped.contains(q) ==> q == c || m1.dropped.contains(q),
        match table::get(mid.undropped, c) {
            Some(vs) => vs.len() > 0 && vs.no_duplicates() && !mid.dropped.contains(c)
                && forall|x: Seq<char>| #[trigger] vs.contains(x) <==> m1.live(c, x) && x != v,
            None => mid.dropped.contains(c) && forall|x: Seq<char>| #[trigger]
                m1.live(c, x) ==> x == v,
        },
        m2 == (AppliedM { latest: table::put(m1.latest, v, (t, id)), ..mid }),
    ensures
        m2.right_but(Some(id)),
{
    table::lemma_put(m1.latest, v, (t, id), v);
    assert forall|q: ChangeId, x: Seq<char>| Some(q) != Some(id) && #[trigger] m2.live(
        q,
        x,
    ) implies table::bound(m2.undropped, q) && table::get(m2.undropped, q)->Some_0.contains(x) by {
        table::lemma_put(m1.latest, v, (t, id), x);
        assert(m1.live(q, x));
        if q != c {
            assert(table::get(mid.undropped, q) == table::get(m1.undropped, q));
        }
    }
    assert forall|q: ChangeId| #[trigger] table::bound(m2.undropped, q) implies {
        let vs = table::get(m2.undropped, q)->Some_0;
        &&& Some(q) != Some(id)
        &&& vs.len() > 0
        &&& vs.no_duplicates()
        &&& !m2.dropped.contains(q)
        &&& forall|k: int| 0 <= k < vs.len() ==> m2.live(q, #[trigger] vs[k])
    } by {
        let vs = table::get(m2.undropped, q)->Some_0;
        if q != c {
            assert(table::get(mid.undropped, q) == table::get(m1.undropped, q));
            assert(table::bound(m1.undropped, q));
            assert forall|k: int| 0 <= k < vs.len() implies m2.live(q, #[trigger] vs[k]) by {
                assert(m1.live(q, vs[k]));
                table::lemma_put(m1.latest, v, (t, id), vs[k]);
                assert(vs[k] != v);
            }
        } else {
            assert forall|k: int| 0 <= k < vs.len() implies m2.live(q, #[trigger] vs[k]) by {
                assert(vs.contains(vs[k]));
                table::lemma_put(m1.latest, v, (t, id), vs[k]);
            }
        }
    }
}

/// What has been done with the first variables carries on to one more that the
/// change takes over.
proof fn lemma_taken(
    m0: AppliedM,
    m1: AppliedM,
    m2: AppliedM,
    mx: Seq<(Seq<char>, TxnId)>,
    i: int,
    ch: PropChangeM,
    mine1: Seq<Seq<char>>,
    mine2: Seq<Seq<char>>,
)
    requires
        0 <= i < mx.len(),
        table::keys_distinct(mx),
        m2.latest == table::put(m1.latest, mx[i].0, (mx[i].1, ch.id)),
        mine2 == mine1.push(mx[i].0),
        mine1.no_duplicates(),
        !m1.live(ch.id, mx[i].0),
        table::slot(mx, mx[i].0) == i,
        newest(ch.preds, ch.preds.len(), mx[i].0) == Some(mx[i].1),
        table::get(m1.latest, mx[i].0) matches Some(x) ==> txn::older(x.0, mx[i].1),
        forall|v: Seq<char>| #[trigger] mine1.contains(v) <==> m1.live(ch.id, v),
        forall|v: Seq<char>| #[trigger]
            m1.live(ch.id, v) ==> table::bound(mx, v) && table::slot(mx, v) < i,
        forall|v: Seq<char>| #[trigger]
            table::get(m1.latest, v) == (if table::bound(mx, v) && table::slot(mx, v) < i {
                superseded(table::get(m0.latest, v), ch, v)
            } else {
                table::get(m0.latest, v)
            }),
    ensures
        mine2.no_duplicates(),
        forall|v: Seq<char>| #[trigger] mine2.contains(v) <==> m2.live(ch.id, v),
        forall|v: Seq<char>| #[trigger]
            m2.live(ch.id, v) ==> table::bound(mx, v) && table::slot(mx, v) < i + 1,
        forall|v: Seq<char>| #[trigger]
            table::get(m2.latest, v) == (if table::bound(mx, v) && table::slot(mx, v) < i + 1 {
                superseded(table::get(m0.latest, v), ch, v)
            } else {
                table::get(m0.latest, v)
            }),
{
    let w = mx[i].0;
    assert(!mine1.contains(w));
    assert forall|v: Seq<char>| #[trigger] mine2.contains(v) <==> m2.live(ch.id, v) by {
        table::lemma_put(m1.latest, w, (mx[i].1, ch.id), v);
        assert(mine2[mine1.len() as int] == w);
        if mine1.contains(v) {
            let k = choose|k: int| 0 <= k < mine1.len() && mine1[k] == v;
            assert(mine2[k] == v);
        }
        if mine2.contains(v) && v != w {
            let k = choose|k: int| 0 <= k < mine2.len() && mine2[k] == v;
            assert(mine1[k] == v);
        }
        assert(mine1.contains(v) <==> m1.live(ch.id, v));
    }
    assert forall|v: Seq<char>| #[trigger] m2.live(ch.id, v) implies table::bound(mx, v)
        && table::slot(mx, v) < i + 1 by {
        table::lemma_put(m1.latest, w, (mx[i].1, ch.id), v);
        if v != w {
            assert(m1.live(ch.id, v));
        }
    }
    assert forall|v: Seq<char>| #[trigger]
        table::get(m2.latest, v) == (if table::bound(mx, v) && table::slot(mx, v) < i + 1 {
            superseded(table::get(m0.latest, v), ch, v)
        } else {
            table::get(m0.latest, v)
        }) by {
        table::lemma_put(m1.latest, w, (mx[i].1, ch.id), v);
        table::lemma_slot(mx, v);
        if v == w {
            assert(table::get(m1.latest, w) == table::get(m0.latest, w));
        } else if table::bound(mx, v) && table::slot(mx, v) == i {
            assert(mx[i].0 == v);
        }
    }
}

/// A variable whose latest write stays.
proof fn lemma_skipped(
    m0: AppliedM,
    m1: AppliedM,
    mx: Seq<(Seq<char>, TxnId)>,
    i: int,
    ch: PropChangeM,
)
    requires
        0 <= i < mx.len(),
        table::slot(mx, mx[i].0) == i,
        newest(ch.preds, ch.preds.len(), mx[i].0) == Some(mx[i].1),
        table::get(m1.latest, mx[i].0) matches Some(x) && !txn::older(x.0, mx[i].1),
        forall|v: Seq<char>| #[trigger]
            table::get(m1.latest, v) == (if table::bound(mx, v) && table::slot(mx, v) < i {
                superseded(table::get(m0.latest, v), ch, v)
            } else {
                table::get(m0.latest, v)
            }),
    ensures
        forall|v: Seq<char>| #[trigger]
            table::get(m1.latest, v) == (if table::bound(mx, v) && table::slot(mx, v) < i + 1 {
                superseded(table::get(m0.latest, v), ch, v)
            } else {
                table::get(m0.latest, v)
            }),
{
    let w = mx[i].0;
    assert forall|v: Seq<char>| #[trigger]
        table::get(m1.latest, v) == (if table::bound(mx, v) && table::slot(mx, v) < i + 1 {
            superseded(table::get(m0.latest, v), ch, v)
        } else {
            table::get(m0.latest, v)
        }) by {
        table::lemma_slot(mx, v);
        if v == w {
            assert(table::get(m1.latest, w) == table::get(m0.latest, w));
        } else if table::bound(mx, v) && table::slot(mx, v) == i {
            assert(mx[i].0 == v);
        }
    }
}

/// The change itself is put on one of the lists.
proof fn lemma_closed(m3: AppliedM, z: AppliedM, id: ChangeId, live: Seq<Seq<char>>)
    requires
        m3.right_but(Some(id)),
        !m3.applied(id),
        live.no_duplicates(),
        forall|v: Seq<char>| #[trigger] live.contains(v) <==> m3.live(id, v),
        z.latest == m3.latest,
        live.len() > 0 ==> z.undropped == table::put(m3.undropped, id, live) && z.dropped
            == m3.dropped,
        live.len() == 0 ==> z.undropped == m3.undropped && z.dropped == m3.dropped.push(id),
    ensures
        z.right(),
        forall|c: ChangeId| #[trigger] z.applied(c) <==> c == id || m3.applied(c),
{
    table::lemma_put(m3.undropped, id, live, id);
    if live.len() == 0 {
        assert(z.dropped[m3.dropped.len() as int] == id);
    }
    assert forall|c: ChangeId| #[trigger] z.dropped.contains(c) implies m3.dropped.contains(c) || (
    c == id && live.len() == 0) by {
        let k = choose|k: int| 0 <= k < z.dropped.len() && z.dropped[k] == c;
        if k < m3.dropped.len() {
            assert(m3.dropped[k] == c);
        }
    }
    assert forall|c: ChangeId| m3.dropped.contains(c) implies #[trigger] z.dropped.contains(c) by {
        let k = choose|k: int| 0 <= k < m3.dropped.len() && m3.dropped[k] == c;
        assert(z.dropped[k] == c);
    }
    assert forall|c: ChangeId| #[trigger] z.applied(c) <==> c == id || m3.applied(c) by {
        table::lemma_put(m3.undropped, id, live, c);
    }
    assert forall|c: ChangeId, v: Seq<char>| #[trigger] z.live(c, v) implies table::bound(
        z.undropped,
        c,
    ) && table::get(z.undropped, c)->Some_0.contains(v) by {
        assert(m3.live(c, v));
        table::lemma_put(m3.undropped, id, live, c);
        if c == id {
            assert(live.contains(v));
        }
    }
    assert forall|c: ChangeId| #[trigger] table::bound(z.undropped, c) implies {
        let vs = table::get(z.undropped, c)->Some_0;
        &&& vs.len() > 0
        &&& vs.no_duplicates()
        &&& !z.dropped.contains(c)
        &&& forall|k: int| 0 <= k < vs.len() ==> z.live(c, #[trigger] vs[k])
    } by {
        let vs = table::get(z.undropped, c)->Some_0;
        table::lemma_put(m3.undropped, id, live, c);
        if c == id && live.len() > 0 {
            assert(vs == live);
            assert forall|k: int| 0 <= k < vs.len() implies z.live(c, #[trigger] vs[k]) by {
                assert(live.contains(live[k]));
            }
        } else {
            assert(table::bound(m3.undropped, c));
            assert forall|k: int| 0 <= k < vs.len() implies z.live(c, #[trigger] vs[k]) by {
                assert(m3.live(c, vs[k]));
            }
        }
    }
}

/// Once a change is applied, the latest write of a variable is none that is older
/// than the one before, nor than any write of the change. It is the one before,
/// or one that came in the change; where the change does not write the variable,
/// it stays.
pub proof fn law_latest_write_counts(
    now: Option<(TxnId, ChangeId)>,
    change: PropChangeM,
    v: Seq<char>,
    i: int,
)
    requires
        0 <= i < change.preds.len(),
    ensures
        ({
            let r = superseded(now, change, v);
            &&& now matches Some(x) ==> r is Some && !txn::older(r->Some_0.0, x.0)
            &&& writes(change.preds[i], v) ==> r is Some && !txn::older(
                r->Some_0.0,
                change.preds[i].id,
            )
            &&& r != now ==> r->Some_0.1 == change.id && exists|j: int|
                0 <= j < change.preds.len() && writes(#[trigger] change.preds[j], v)
                    && change.preds[j].id == r->Some_0.0
        }),
{
    law_newest(change.preds, change.preds.len(), v);
    let p = change.preds[i];
    if let Some(t) = newest(change.preds, change.preds.len(), v) {
        txn::law_age_is_total_order(t, p.id, t);
        if let Some(x) = now {
            txn::law_age_is_total_order(x.0, t, p.id);
            txn::law_age_is_total_order(x.0, p.id, t);
        }
    }
}

} // verus!
