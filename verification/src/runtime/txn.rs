//! Transactions and the locks they hold.

use crate::net::types::{Address, ServiceNetId};
use crate::runtime::ast::model::ValueM;
use crate::runtime::ast::Value;
use crate::runtime::interner::Symbol;
use crate::runtime::table;
use crate::runtime::table::{Plain, Table};
use vstd::prelude::*;

verus! {

/// The identity of a transaction: when and where it began, and how often it
/// has been tried again.
#[derive(Debug, Clone, Copy, PartialEq, Eq, Hash, PartialOrd, Ord, Structural)]
pub struct TxnId {
    pub timestamp: u128,
    pub node_id: u64,
    pub iteration: u32,
}

/// Whether `a` is older than `b`: by its time, then its node, then its round.
pub open spec fn older(a: TxnId, b: TxnId) -> bool {
    a.timestamp < b.timestamp || (a.timestamp == b.timestamp && (a.node_id < b.node_id || (
    a.node_id == b.node_id && a.iteration < b.iteration)))
}

/// Age is a strict total order.
pub proof fn law_age_is_total_order(a: TxnId, b: TxnId, c: TxnId)
    ensures
        !older(a, a),
        older(a, b) && older(b, c) ==> older(a, c),
        a == b || older(a, b) || older(b, a),
        older(a, b) ==> !older(b, a),
{
}

impl DeepView for TxnId {
    type V = TxnId;

    open spec fn deep_view(&self) -> TxnId {
        *self
    }
}

impl Plain for TxnId {
    fn dup(&self) -> (r: Self) {
        *self
    }

    fn same(&self, other: &Self) -> (r: bool) {
        *self == *other
    }
}

impl TxnId {
    /// The identity of a transaction that begins at `timestamp` on node `node_id`.
    pub fn new(timestamp: u128, node_id: u64) -> (r: TxnId)
        ensures
            r == (TxnId { timestamp, node_id, iteration: 0 }),
    {
        TxnId { timestamp, node_id, iteration: 0 }
    }

    /// Whether this transaction is older than `other`.
    pub fn is_older(&self, other: &TxnId) -> (r: bool)
        ensures
            r == older(*self, *other),
    {
        self.timestamp < other.timestamp || (self.timestamp == other.timestamp && (self.node_id
            < other.node_id || (self.node_id == other.node_id && self.iteration
            < other.iteration)))
    }

    /// The same transaction, tried once more; its age by time and node stays.
    pub fn retry(&self) -> (r: TxnId)
        requires
            self.iteration < u32::MAX,
        ensures
            r == (TxnId { iteration: (self.iteration + 1) as u32, ..*self }),
    {
        TxnId {
            timestamp: self.timestamp,
            node_id: self.node_id,
            iteration: self.iteration + 1,
        }
    }
}

/// What a transaction that meets a held lock is to do.
#[derive(Debug, Clone, Copy, PartialEq, Eq, Structural)]
pub enum WaitDie {
    Wait,
    Die,
}

/// The lock of a variable.
#[derive(Debug, Clone, PartialEq, Eq)]
pub enum VarLock {
    Unlocked,
    ReadLocked(Vec<TxnId>),
    WriteLocked(TxnId),
}

/// The model of a [`VarLock`].
pub enum LockM {
    Unlocked,
    ReadLocked(Seq<TxnId>),
    WriteLocked(TxnId),
}

impl DeepView for VarLock {
    type V = LockM;

    open spec fn deep_view(&self) -> LockM {
        match *self {
            VarLock::Unlocked => LockM::Unlocked,
            VarLock::ReadLocked(v) => LockM::ReadLocked(v.deep_view()),
            VarLock::WriteLocked(t) => LockM::WriteLocked(t),
        }
    }
}

impl LockM {
    /// The transactions that hold the lock.
    pub open spec fn holders(self) -> Seq<TxnId> {
        match self {
            LockM::Unlocked => seq![],
            LockM::ReadLocked(s) => s,
            LockM::WriteLocked(t) => seq![t],
        }
    }

    /// Whether `t` may read: nobody else writes.
    pub open spec fn readable(self, t: TxnId) -> bool {
        self matches LockM::WriteLocked(h) ==> h == t
    }

    /// The lock once `t` reads, which is allowed.
    pub open spec fn reading(self, t: TxnId) -> LockM {
        match self {
            LockM::Unlocked => LockM::ReadLocked(seq![t]),
            LockM::ReadLocked(s) => LockM::ReadLocked(table::added(s, t)),
            LockM::WriteLocked(h) => self,
        }
    }

    /// Whether `t` may write without having read: nobody holds the lock, or
    /// `t` writes already.
    pub open spec fn writable(self, t: TxnId) -> bool {
        match self {
            LockM::Unlocked => true,
            LockM::ReadLocked(_) => false,
            LockM::WriteLocked(h) => h == t,
        }
    }

    /// Whether `t`, a reader, may turn to writing: nobody else holds the lock.
    pub open spec fn upgradable(self, t: TxnId) -> bool {
        forall|i: int| 0 <= i < self.holders().len() ==> #[trigger] self.holders()[i] == t
    }

    /// What `t` does where it cannot have the lock: it waits if it is older than
    /// every other holder, and else it dies.
    pub open spec fn waits(self, t: TxnId) -> bool {
        forall|i: int|
            0 <= i < self.holders().len() ==> (#[trigger] self.holders()[i] == t || older(
                t,
                self.holders()[i],
            ))
    }

    /// The lock once `t` has let go of it.
    pub open spec fn released(self, t: TxnId) -> LockM {
        match self {
            LockM::Unlocked => LockM::Unlocked,
            LockM::ReadLocked(s) => {
                let rest = dropped(s, t);
                if rest.len() == 0 {
                    LockM::Unlocked
                } else {
                    LockM::ReadLocked(rest)
                }
            },
            LockM::WriteLocked(h) => if h == t {
                LockM::Unlocked
            } else {
                self
            },
        }
    }
}

/// `s` without `t`.
pub open spec fn dropped(s: Seq<TxnId>, t: TxnId) -> Seq<TxnId>
    decreases s.len(),
{
    if s.len() == 0 {
        s
    } else if s.last() == t {
        dropped(s.drop_last(), t)
    } else {
        dropped(s.drop_last(), t).push(s.last())
    }
}

/// What is left once `t` is dropped.
pub proof fn lemma_dropped(s: Seq<TxnId>, t: TxnId, q: TxnId)
    ensures
        dropped(s, t).contains(q) <==> s.contains(q) && q != t,
    decreases s.len(),
{
    if s.len() > 0 {
        lemma_dropped(s.drop_last(), t, q);
        let d = dropped(s.drop_last(), t);
        assert(s.contains(q) <==> s.drop_last().contains(q) || s.last() == q) by {
            if s.contains(q) {
                let i = choose|i: int| 0 <= i < s.len() && s[i] == q;
                if i < s.len() - 1 {
                    assert(s.drop_last()[i] == q);
                }
            }
            if s.drop_last().contains(q) {
                let i = choose|i: int| 0 <= i < s.len() - 1 && s.drop_last()[i] == q;
                assert(s[i] == q);
            }
        }
        assert(d.push(s.last()).contains(q) <==> d.contains(q) || s.last() == q) by {
            if d.contains(q) {
                let i = choose|i: int| 0 <= i < d.len() && d[i] == q;
                assert(d.push(s.last())[i] == q);
            }
            assert(d.push(s.last())[d.len() as int] == s.last());
            if d.push(s.last()).contains(q) && q != s.last() {
                let i = choose|i: int| 0 <= i < d.len() + 1 && d.push(s.last())[i] == q;
                assert(d[i] == q);
            }
        }
    }
}

/// Once a transaction has let go of a lock it no longer holds it, and every
/// other holder still does.
pub proof fn law_release_frees(l: LockM, t: TxnId, q: TxnId)
    ensures
        !l.released(t).holders().contains(t),
        q != t ==> (l.released(t).holders().contains(q) <==> l.holders().contains(q)),
{
    if let LockM::ReadLocked(s) = l {
        lemma_dropped(s, t, t);
        lemma_dropped(s, t, q);
        if q != t && s.contains(q) {
            assert(dropped(s, t).len() > 0);
        }
    }
    if let LockM::WriteLocked(h) = l {
        assert(l.holders()[0] == h);
    }
}

/// A lock that one transaction writes under is held by no other, whatever is
/// asked of it.
pub proof fn law_writer_is_alone(l: LockM, t: TxnId, q: TxnId)
    requires
        l == LockM::WriteLocked(t),
        q != t,
    ensures
        !l.readable(q),
        !l.writable(q),
        !l.upgradable(q),
{
    assert(l.holders()[0] == t);
}

/// Waiting never goes in a circle: a transaction waits only for younger ones.
pub proof fn law_waits_for_younger(l: LockM, t: TxnId, q: TxnId)
    requires
        l.waits(t),
        l.holders().contains(q),
        q != t,
    ensures
        older(t, q),
{
    let i = choose|i: int| 0 <= i < l.holders().len() && l.holders()[i] == q;
    assert(l.holders()[i] == q);
}

/// What began earlier is older, wherever it began and however often it was tried.
pub proof fn law_earlier_is_older(a: TxnId, b: TxnId)
    requires
        a.timestamp < b.timestamp,
    ensures
        older(a, b),
        !older(b, a),
{
}

/// A transaction that is tried again is as old as it was, seen from all that
/// began at another time or on another node, and younger than it was itself.
pub proof fn law_trying_again_keeps_age(a: TxnId, again: TxnId, b: TxnId)
    requires
        again.timestamp == a.timestamp,
        again.node_id == a.node_id,
        again.iteration > a.iteration,
    ensures
        b.timestamp != a.timestamp || b.node_id != a.node_id ==> older(again, b) == older(a, b)
            && older(b, again) == older(b, a),
        older(a, again),
{
}

/// A transaction that cannot have a lock waits just where it is older than every
/// other one that holds it; else it dies.
pub proof fn law_older_waits_younger_dies(l: LockM, t: TxnId)
    ensures
        l.waits(t) <==> forall|q: TxnId|
            #[trigger] l.holders().contains(q) && q != t ==> older(t, q),
        (exists|q: TxnId| #[trigger] l.holders().contains(q) && older(q, t)) ==> !l.waits(t),
{
    let h = l.holders();
    if l.waits(t) {
        assert forall|q: TxnId| #[trigger] h.contains(q) && q != t implies older(t, q) by {
            let i = choose|i: int| 0 <= i < h.len() && h[i] == q;
            assert(h[i] == q);
        }
    }
    if forall|q: TxnId| #[trigger] h.contains(q) && q != t ==> older(t, q) {
        assert forall|i: int| 0 <= i < h.len() implies (#[trigger] h[i] == t || older(
            t,
            h[i],
        )) by {
            assert(h.contains(h[i]));
        }
    }
}

/// Many may read, one may write. A transaction gets a lock for reading unless
/// another writes; for writing just where no other holds it. Whoever reads or
/// writes holds the lock, and who held it with others still does.
pub proof fn law_many_read_one_writes(l: LockM, t: TxnId, q: TxnId)
    ensures
        l.readable(t) <==> !(exists|h: TxnId| l == LockM::WriteLocked(h) && h != t),
        l.readable(t) ==> l.reading(t).holders().contains(t),
        l.readable(t) && q != t ==> (l.reading(t).holders().contains(q) <==> l.holders().contains(
            q,
        )),
        l.upgradable(t) <==> forall|h: TxnId| #[trigger] l.holders().contains(h) ==> h == t,
        l.writable(t) && l.holders().contains(q) ==> q == t,
        LockM::Unlocked.readable(t) && LockM::Unlocked.writable(t) && LockM::Unlocked.upgradable(
            t,
        ),
        LockM::WriteLocked(t).readable(t) && LockM::WriteLocked(t).writable(t)
            && LockM::WriteLocked(t).upgradable(t),
        LockM::WriteLocked(t).holders().contains(q) <==> q == t,
{
    let h = l.holders();
    assert(LockM::WriteLocked(t).holders()[0] == t);
    if l.upgradable(t) {
        assert forall|x: TxnId| #[trigger] h.contains(x) implies x == t by {
            let i = choose|i: int| 0 <= i < h.len() && h[i] == x;
            assert(h[i] == x);
        }
    }
    if forall|x: TxnId| #[trigger] h.contains(x) ==> x == t {
        assert forall|i: int| 0 <= i < h.len() implies #[trigger] h[i] == t by {
            assert(h.contains(h[i]));
        }
    }
    match l {
        LockM::Unlocked => {
            assert(seq![t][0] == t);
        },
        LockM::ReadLocked(s) => {
            let z = table::added(s, t);
            if !s.contains(t) {
                assert(z[s.len() as int] == t);
            }
            if s.contains(q) {
                let i = choose|i: int| 0 <= i < s.len() && s[i] == q;
                assert(z[i] == q);
            }
            if q != t && z.contains(q) {
                let i = choose|i: int| 0 <= i < z.len() && z[i] == q;
                assert(s[i] == q);
            }
        },
        LockM::WriteLocked(w) => {
            assert(h[0] == w);
        },
    }
}

/// A lock that nobody else holds is free once it is let go of.
pub proof fn law_last_release_unlocks(l: LockM, t: TxnId)
    requires
        forall|q: TxnId| #[trigger] l.holders().contains(q) ==> q == t,
    ensures
        l.released(t) == LockM::Unlocked,
{
    match l {
        LockM::ReadLocked(s) => {
            let d = dropped(s, t);
            if d.len() > 0 {
                lemma_dropped(s, t, d[0]);
                assert(d.contains(d[0]));
                assert(l.holders().contains(d[0]));
            }
        },
        LockM::WriteLocked(w) => {
            assert(l.holders()[0] == w);
            assert(l.holders().contains(w));
        },
        LockM::Unlocked => {},
    }
}

impl VarLock {
    /// Takes the lock for reading, if that is allowed.
    pub fn try_read(&mut self, t: &TxnId) -> (r: bool)
        ensures
            r == old(self).deep_view().readable(*t),
            final(self).deep_view() == (if r {
                old(self).deep_view().reading(*t)
            } else {
                old(self).deep_view()
            }),
    {
        match self {
            VarLock::Unlocked => {
                let mut v: Vec<TxnId> = Vec::new();
                v.push(*t);
                assert(v.deep_view() =~= seq![*t]);
                *self = VarLock::ReadLocked(v);
                true
            },
            VarLock::ReadLocked(v) => {
                table::include_item(v, *t);
                true
            },
            VarLock::WriteLocked(h) => *h == *t,
        }
    }

    /// Takes the lock for writing, if that is allowed.
    pub fn try_write(&mut self, t: &TxnId) -> (r: bool)
        ensures
            r == old(self).deep_view().writable(*t),
            final(self).deep_view() == (if r {
                LockM::WriteLocked(*t)
            } else {
                old(self).deep_view()
            }),
    {
        match self {
            VarLock::Unlocked => {
                *self = VarLock::WriteLocked(*t);
                true
            },
            VarLock::ReadLocked(_) => false,
            VarLock::WriteLocked(h) => *h == *t,
        }
    }

    /// Turns from reading to writing, if that is allowed.
    pub fn upgrade_to_write(&mut self, t: &TxnId) -> (r: bool)
        ensures
            r == old(self).deep_view().upgradable(*t),
            final(self).deep_view() == (if r {
                LockM::WriteLocked(*t)
            } else {
                old(self).deep_view()
            }),
    {
        let ghost before = self.deep_view();
        let mine = match self {
            VarLock::Unlocked => true,
            VarLock::ReadLocked(v) => {
                assert(before.holders() == v.deep_view());
                all_are(v, t)
            },
            VarLock::WriteLocked(h) => {
                assert(before.holders()[0] == *h);
                *h == *t
            },
        };
        assert(mine == before.upgradable(*t)) by {
            if let LockM::WriteLocked(h) = before {
                assert(before.holders()[0] == h);
            }
        }
        if mine {
            *self = VarLock::WriteLocked(*t);
        }
        mine
    }

    /// Whether `t`, which cannot have the lock, is to wait or to die.
    pub fn wait_die(&self, t: &TxnId) -> (r: WaitDie)
        ensures
            (r == WaitDie::Wait) <==> self.deep_view().waits(*t),
    {
        match self {
            VarLock::Unlocked => WaitDie::Wait,
            VarLock::ReadLocked(v) => {
                let ghost hs = v.deep_view();
                for i in 0..v.len()
                    invariant
                        hs == v.deep_view(),
                        self.deep_view().holders() == hs,
                        forall|j: int| 0 <= j < i ==> hs[j] == *t || older(*t, #[trigger] hs[j]),
                {
                    if v[i] != *t && !t.is_older(&v[i]) {
                        assert(hs[i as int] != *t && !older(*t, hs[i as int]));
                        return WaitDie::Die;
                    }
                }
                WaitDie::Wait
            },
            VarLock::WriteLocked(h) => {
                assert(self.deep_view().holders()[0] == *h);
                if *h == *t || t.is_older(h) {
                    WaitDie::Wait
                } else {
                    WaitDie::Die
                }
            },
        }
    }

    /// Lets go of the lock on behalf of `t`.
    pub fn release(&mut self, t: &TxnId)
        ensures
            final(self).deep_view() == old(self).deep_view().released(*t),
    {
        match self {
            VarLock::Unlocked => {},
            VarLock::ReadLocked(v) => {
                let rest = without_txn(v, t);
                if rest.len() == 0 {
                    assert(rest.deep_view().len() == 0);
                    *self = VarLock::Unlocked;
                } else {
                    *self = VarLock::ReadLocked(rest);
                }
            },
            VarLock::WriteLocked(h) => {
                if *h == *t {
                    *self = VarLock::Unlocked;
                }
            },
        }
    }
}

fn all_are(v: &Vec<TxnId>, t: &TxnId) -> (r: bool)
    ensures
        r == (forall|i: int| 0 <= i < v.deep_view().len() ==> #[trigger] v.deep_view()[i] == *t),
{
    for i in 0..v.len()
        invariant
            forall|j: int| 0 <= j < i ==> #[trigger] v.deep_view()[j] == *t,
    {
        if v[i] != *t {
            assert(v.deep_view()[i as int] != *t);
            return false;
        }
    }
    true
}

fn without_txn(v: &Vec<TxnId>, t: &TxnId) -> (r: Vec<TxnId>)
    ensures
        r.deep_view() == dropped(v.deep_view(), *t),
{
    let ghost s = v.deep_view();
    let mut out: Vec<TxnId> = Vec::new();
    assert(out.deep_view() =~= Seq::<TxnId>::empty());
    assert(s.take(0) =~= Seq::<TxnId>::empty());
    for i in 0..v.len()
        invariant
            s == v.deep_view(),
            out.deep_view() == dropped(s.take(i as int), *t),
    {
        assert(s.take(i + 1).drop_last() =~= s.take(i as int));
        assert(s.take(i + 1).last() == v@[i as int]);
        let ghost before = out.deep_view();
        if v[i] != *t {
            out.push(v[i]);
            assert(out.deep_view() =~= before.push(v@[i as int]));
        }
    }
    assert(s.take(s.len() as int) =~= s);
    out
}

/// The state of a variable.
#[derive(Debug, Clone)]
pub struct VarState {
    pub value: Value,
    pub lock: VarLock,
    /// The transaction that wrote the value last.
    pub latest_write_txn: Option<TxnId>,
}

/// The model of a [`VarState`].
pub struct VarStateM {
    pub value: ValueM<Symbol>,
    pub lock: LockM,
    pub latest_write_txn: Option<TxnId>,
}

impl DeepView for VarState {
    type V = VarStateM;

    open spec fn deep_view(&self) -> VarStateM {
        VarStateM {
            value: self.value.deep_view(),
            lock: self.lock.deep_view(),
            latest_write_txn: self.latest_write_txn,
        }
    }
}

impl VarState {
    /// A variable that holds `value`, unlocked and written by nobody.
    pub fn new(value: Value) -> (r: VarState)
        ensures
            r.deep_view() == (VarStateM {
                value: value.deep_view(),
                lock: LockM::Unlocked,
                latest_write_txn: None,
            }),
    {
        VarState { value, lock: VarLock::Unlocked, latest_write_txn: None }
    }
}

/// A transaction: what it has locked, what it has written but not committed,
/// what it has read, and which other nodes take part.
#[derive(Debug, Clone)]
pub struct Transaction {
    pub id: TxnId,
    pub locked: Vec<(ServiceNetId, Symbol)>,
    pub written: Table<(ServiceNetId, Symbol), Value>,
    pub read_cache: Table<(ServiceNetId, Symbol), Value>,
    pub participants: Vec<Address>,
}

/// The model of a [`Transaction`].
pub struct TxnM {
    pub id: TxnId,
    pub locked: Seq<(Seq<char>, Symbol)>,
    pub written: Seq<((Seq<char>, Symbol), ValueM<Symbol>)>,
    pub read_cache: Seq<((Seq<char>, Symbol), ValueM<Symbol>)>,
    pub participants: Seq<Seq<char>>,
}

/// A transaction that has done nothing yet.
pub open spec fn fresh_txn(id: TxnId) -> TxnM {
    TxnM { id, locked: seq![], written: seq![], read_cache: seq![], participants: seq![] }
}

impl DeepView for Transaction {
    type V = TxnM;

    open spec fn deep_view(&self) -> TxnM {
        TxnM {
            id: self.id,
            locked: self.locked.deep_view(),
            written: self.written.deep_view(),
            read_cache: self.read_cache.deep_view(),
            participants: self.participants.deep_view(),
        }
    }
}

impl Transaction {
    /// A transaction that has done nothing yet.
    pub fn new(id: TxnId) -> (r: Transaction)
        ensures
            r.deep_view() == fresh_txn(id),
    {
        let r = Transaction {
            id,
            locked: Vec::new(),
            written: Table::new(),
            read_cache: Table::new(),
            participants: Vec::new(),
        };
        assert(r.locked.deep_view() =~= Seq::<(Seq<char>, Symbol)>::empty());
        assert(r.participants.deep_view() =~= Seq::<Seq<char>>::empty());
        r
    }
}

} // verus!
