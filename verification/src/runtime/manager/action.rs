//! The progress of a transaction that its manager watches over.

use crate::runtime::ast::model::ExprM;
use crate::runtime::ast::Expr;
use crate::runtime::def_actor::state::{ChangeTxnM, Txn};
use crate::runtime::interner::Symbol;
use crate::runtime::semantic_analysis::var_analysis::read_write;
use crate::runtime::table;
use crate::runtime::table::{Plain, Table};
use crate::runtime::txn::TxnId;
use vstd::prelude::*;

verus! {

/// The state of a read that goes through definitions; its lock is needed.
#[derive(Debug, Clone, PartialEq, Eq)]
pub enum TransReadState {
    Requested,
    /// The lock was granted, after this transaction.
    Granted(Option<TxnId>),
    Aborted,
}

/// The state of a read that the transaction makes itself.
#[derive(Debug, Clone, PartialEq, Eq)]
pub enum DirectReadState {
    /// The read was requested; it goes through these variables.
    RequestedAndDepend(Vec<String>),
    /// What was read.
    Read(Expr),
}

/// The state of a write.
#[derive(Debug, Clone, Copy, PartialEq, Eq, Structural)]
pub enum WriteState {
    Requested,
    Granted,
    Aborted,
    Written,
}

/// The kind of a lock.
#[derive(Debug, Clone, Copy, PartialEq, Eq, Structural)]
pub enum LockKind {
    Read,
    Write,
}

/// The model of a [`TransReadState`].
pub enum TransReadM {
    Requested,
    Granted(Option<TxnId>),
    Aborted,
}

/// The model of a [`DirectReadState`].
pub enum DirectReadM {
    RequestedAndDepend(Seq<Seq<char>>),
    Read(ExprM<Symbol>),
}

impl DeepView for TransReadState {
    type V = TransReadM;

    open spec fn deep_view(&self) -> TransReadM {
        match *self {
            TransReadState::Requested => TransReadM::Requested,
            TransReadState::Granted(t) => TransReadM::Granted(t),
            TransReadState::Aborted => TransReadM::Aborted,
        }
    }
}

impl DeepView for DirectReadState {
    type V = DirectReadM;

    open spec fn deep_view(&self) -> DirectReadM {
        match *self {
            DirectReadState::RequestedAndDepend(v) => DirectReadM::RequestedAndDepend(
                v.deep_view(),
            ),
            DirectReadState::Read(e) => DirectReadM::Read(e.deep_view()),
        }
    }
}

impl DeepView for WriteState {
    type V = WriteState;

    open spec fn deep_view(&self) -> WriteState {
        *self
    }
}

/// Watches over a transaction on behalf of the client `from_client`.
#[derive(Debug, Clone)]
pub struct TxnManager<C> {
    pub txn: Txn,
    pub from_client: C,
    pub direct_reads: Table<String, DirectReadState>,
    pub trans_reads: Table<String, TransReadState>,
    pub writes: Table<String, WriteState>,
    /// The transactions that have to be applied before this one.
    pub preds: Vec<Txn>,
}

/// The model of a [`TxnManager`].
pub struct TxnManagerM<C> {
    pub txn: ChangeTxnM,
    pub from_client: C,
    pub direct_reads: Seq<(Seq<char>, DirectReadM)>,
    pub trans_reads: Seq<(Seq<char>, TransReadM)>,
    pub writes: Seq<(Seq<char>, WriteState)>,
    pub preds: Seq<ChangeTxnM>,
}

impl<C> DeepView for TxnManager<C> {
    type V = TxnManagerM<C>;

    open spec fn deep_view(&self) -> TxnManagerM<C> {
        TxnManagerM {
            txn: self.txn.deep_view(),
            from_client: self.from_client,
            direct_reads: self.direct_reads.deep_view(),
            trans_reads: self.trans_reads.deep_view(),
            writes: self.writes.deep_view(),
            preds: self.preds.deep_view(),
        }
    }
}

/// Each of the first `n` names is requested.
pub open spec fn requested(
    t: Seq<(Seq<char>, TransReadM)>,
    names: Seq<Seq<char>>,
    n: nat,
) -> Seq<(Seq<char>, TransReadM)>
    decreases n,
{
    if n == 0 {
        t
    } else {
        table::put(requested(t, names, (n - 1) as nat), names[n - 1], TransReadM::Requested)
    }
}

/// The reads that the first `n` names go through.
pub open spec fn all_trans_reads(
    reads: Seq<Seq<char>>,
    deps: Seq<(Seq<char>, Seq<Seq<char>>)>,
    n: nat,
) -> Seq<(Seq<char>, TransReadM)>
    decreases n,
{
    if n == 0 {
        seq![]
    } else {
        let vars = table::get(deps, reads[n - 1])->Some_0;
        requested(all_trans_reads(reads, deps, (n - 1) as nat), vars, vars.len())
    }
}

/// The first `n` reads are requested.
pub open spec fn all_direct_reads(
    reads: Seq<Seq<char>>,
    deps: Seq<(Seq<char>, Seq<Seq<char>>)>,
    n: nat,
) -> Seq<(Seq<char>, DirectReadM)>
    decreases n,
{
    if n == 0 {
        seq![]
    } else {
        table::put(
            all_direct_reads(reads, deps, (n - 1) as nat),
            reads[n - 1],
            DirectReadM::RequestedAndDepend(table::get(deps, reads[n - 1])->Some_0),
        )
    }
}

/// The first `n` writes are requested.
pub open spec fn all_writes(writes: Seq<Seq<char>>, n: nat) -> Seq<(Seq<char>, WriteState)>
    decreases n,
{
    if n == 0 {
        seq![]
    } else {
        table::put(all_writes(writes, (n - 1) as nat), writes[n - 1], WriteState::Requested)
    }
}

/// Whether all locks were granted.
pub open spec fn granted_all<C>(m: TxnManagerM<C>) -> bool {
    &&& forall|i: int|
        0 <= i < m.trans_reads.len() ==> (#[trigger] m.trans_reads[i]).1 is Granted
    &&& forall|i: int| 0 <= i < m.writes.len() ==> (#[trigger] m.writes[i]).1 is Granted
}

/// Whether a lock was refused.
pub open spec fn refused_any<C>(m: TxnManagerM<C>) -> bool {
    ||| exists|i: int| 0 <= i < m.trans_reads.len() && (#[trigger] m.trans_reads[i]).1 is Aborted
    ||| exists|i: int| 0 <= i < m.writes.len() && (#[trigger] m.writes[i]).1 is Aborted
}

/// What has become of the lock of a name.
pub open spec fn with_grant<C>(
    m: TxnManagerM<C>,
    name: Seq<char>,
    kind: LockKind,
    pred: Option<TxnId>,
) -> TxnManagerM<C> {
    if kind is Read {
        TxnManagerM {
            trans_reads: table::put(m.trans_reads, name, TransReadM::Granted(pred)),
            ..m
        }
    } else {
        TxnManagerM {
            trans_reads: if table::bound(m.trans_reads, name) {
                table::put(m.trans_reads, name, TransReadM::Granted(pred))
            } else {
                m.trans_reads
            },
            writes: table::put(m.writes, name, WriteState::Granted),
            ..m
        }
    }
}

/// All locks are refused.
pub open spec fn refused_all<C>(m: TxnManagerM<C>) -> TxnManagerM<C> {
    TxnManagerM {
        trans_reads: Seq::new(
            m.trans_reads.len(),
            |i: int| (m.trans_reads[i].0, TransReadM::Aborted),
        ),
        writes: Seq::new(m.writes.len(), |i: int| (m.writes[i].0, WriteState::Aborted)),
        ..m
    }
}

/// Whether every read has its result.
pub open spec fn read_all<C>(m: TxnManagerM<C>) -> bool {
    forall|i: int| 0 <= i < m.direct_reads.len() ==> (#[trigger] m.direct_reads[i]).1 is Read
}

/// The results of the first `n` reads, where they have some.
pub open spec fn results(reads: Seq<(Seq<char>, DirectReadM)>, n: nat) -> Seq<
    (Seq<char>, ExprM<Symbol>),
>
    decreases n,
{
    if n == 0 {
        seq![]
    } else {
        let rest = results(reads, (n - 1) as nat);
        match reads[n - 1].1 {
            DirectReadM::Read(e) => rest.push((reads[n - 1].0, e)),
            _ => rest,
        }
    }
}

/// What a finished read makes of the progress of a transaction.
pub open spec fn with_read<C>(
    m: TxnManagerM<C>,
    name: Seq<char>,
    result: ExprM<Symbol>,
    pred: Seq<ChangeTxnM>,
) -> TxnManagerM<C> {
    TxnManagerM {
        direct_reads: table::put(m.direct_reads, name, DirectReadM::Read(result)),
        preds: read_write::added_all(m.preds, pred),
        ..m
    }
}

/// Whether every write was made.
pub open spec fn written_all<C>(m: TxnManagerM<C>) -> bool {
    forall|i: int| 0 <= i < m.writes.len() ==> (#[trigger] m.writes[i]).1 is Written
}

/// The transactions that a transaction rests on are those that it rested on and
/// those that a read adds, none of them twice.
pub proof fn law_preds(before: Seq<ChangeTxnM>, pred: Seq<ChangeTxnM>)
    requires
        before.no_duplicates(),
    ensures
        read_write::added_all(before, pred).no_duplicates(),
        forall|t: ChangeTxnM| #[trigger]
            read_write::added_all(before, pred).contains(t) <==> before.contains(t)
                || pred.contains(t),
{
    assert forall|t: ChangeTxnM| #[trigger]
        read_write::added_all(before, pred).contains(t) <==> before.contains(t)
            || pred.contains(t) by {
        read_write::lemma_added_all_contains(before, pred, t);
    }
    if pred.len() > 0 {
        read_write::lemma_added_all_contains(before, pred, pred[0]);
    }
}

impl<C> TxnManager<C> {
    /// Watches over a transaction: all its reads and writes are requested.
    pub fn new(
        txn: Txn,
        from_client: C,
        direct_reads: &Vec<String>,
        dep_tran_vars: &Table<String, Vec<String>>,
        writes: &Vec<String>,
    ) -> (r: TxnManager<C>)
        requires
            forall|i: int|
                0 <= i < direct_reads@.len() ==> table::bound(
                    dep_tran_vars.deep_view(),
                    #[trigger] direct_reads.deep_view()[i],
                ),
        ensures
            r.deep_view() == (TxnManagerM {
                txn: txn.deep_view(),
                from_client,
                direct_reads: all_direct_reads(
                    direct_reads.deep_view(),
                    dep_tran_vars.deep_view(),
                    direct_reads.deep_view().len(),
                ),
                trans_reads: all_trans_reads(
                    direct_reads.deep_view(),
                    dep_tran_vars.deep_view(),
                    direct_reads.deep_view().len(),
                ),
                writes: all_writes(writes.deep_view(), writes.deep_view().len()),
                preds: seq![],
            }),
    {
        let mut direct_states: Table<String, DirectReadState> = Table::new();
        let mut trans_states: Table<String, TransReadState> = Table::new();
        let ghost reads = direct_reads.deep_view();
        let ghost deps = dep_tran_vars.deep_view();
        for i in 0..direct_reads.len()
            invariant
                reads == direct_reads.deep_view(),
                deps == dep_tran_vars.deep_view(),
                forall|i: int|
                    0 <= i < direct_reads@.len() ==> table::bound(deps, #[trigger] reads[i]),
                direct_states.deep_view() == all_direct_reads(reads, deps, i as nat),
                trans_states.deep_view() == all_trans_reads(reads, deps, i as nat),
        {
            assert(reads[i as int] == direct_reads@[i as int]@);
            assert(table::bound(deps, reads[i as int]));
            match dep_tran_vars.get(&direct_reads[i]) {
                Some(vars) => {
                    let ghost v = vars.deep_view();
                    let ghost before = trans_states.deep_view();
                    for k in 0..vars.len()
                        invariant
                            v == vars.deep_view(),
                            trans_states.deep_view() == requested(before, v, k as nat),
                    {
                        assert(v[k as int] == vars@[k as int]@);
                        trans_states.insert(vars[k].clone(), TransReadState::Requested);
                    }
                    direct_states.insert(
                        direct_reads[i].clone(),
                        DirectReadState::RequestedAndDepend(vars.dup()),
                    );
                },
                None => {},
            }
        }
        let mut write_states: Table<String, WriteState> = Table::new();
        let ghost w = writes.deep_view();
        for i in 0..writes.len()
            invariant
                w == writes.deep_view(),
                write_states.deep_view() == all_writes(w, i as nat),
        {
            assert(w[i as int] == writes@[i as int]@);
            write_states.insert(writes[i].clone(), WriteState::Requested);
        }
        let preds: Vec<Txn> = Vec::new();
        assert(preds.deep_view() =~= Seq::<ChangeTxnM>::empty());
        TxnManager {
            txn,
            from_client,
            direct_reads: direct_states,
            trans_reads: trans_states,
            writes: write_states,
            preds,
        }
    }

    /// A lock was granted. A name that is both read and written has one lock
    /// for both.
    pub fn add_grant_lock(&mut self, name: String, kind: LockKind, pred_id: Option<TxnId>)
        requires
            kind is Read ==> table::get(old(self).deep_view().trans_reads, name@) == Some(
                TransReadM::Requested,
            ),
        ensures
            final(self).deep_view() == with_grant(old(self).deep_view(), name@, kind, pred_id),
    {
        if kind == LockKind::Read {
            self.trans_reads.insert(name, TransReadState::Granted(pred_id));
        } else {
            if self.trans_reads.contains_key(&name) {
                self.trans_reads.insert(name.clone(), TransReadState::Granted(pred_id));
            }
            self.writes.insert(name, WriteState::Granted);
        }
    }

    /// A read has its result, which rests on the transactions `pred`. None of
    /// them is kept twice.
    pub fn add_finished_read(&mut self, name: String, result: Expr, pred: Vec<Txn>)
        requires
            table::get(old(self).deep_view().direct_reads, name@) matches Some(s)
                && s is RequestedAndDepend,
        ensures
            final(self).deep_view() == with_read(
                old(self).deep_view(),
                name@,
                result.deep_view(),
                pred.deep_view(),
            ),
            old(self).deep_view().preds.no_duplicates()
                ==> final(self).deep_view().preds.no_duplicates(),
    {
        let ghost p0 = self.preds.deep_view();
        let ghost p = pred.deep_view();
        let ghost d0 = self.deep_view();
        let ghost key = name@;
        let ghost e = result.deep_view();
        self.direct_reads.insert(name, DirectReadState::Read(result));
        let ghost d1 = self.deep_view();
        assert(p.take(0) =~= Seq::<ChangeTxnM>::empty());
        for i in 0..pred.len()
            invariant
                p == pred.deep_view(),
                self.deep_view() == (TxnManagerM {
                    preds: read_write::added_all(p0, p.take(i as int)),
                    ..d1
                }),
        {
            assert(p[i as int] == pred@[i as int].deep_view());
            table::include_item(&mut self.preds, pred[i].dup());
            assert(p.take(i + 1).drop_last() =~= p.take(i as int));
        }
        proof {
            assert(p.take(p.len() as int) =~= p);
            if p0.no_duplicates() {
                law_preds(p0, p);
            }
        }
    }

    /// A write was made.
    pub fn add_finished_write(&mut self, name: String)
        requires
            table::get(old(self).deep_view().writes, name@) == Some(WriteState::Granted),
        ensures
            final(self).deep_view() == (TxnManagerM {
                writes: table::put(old(self).deep_view().writes, name@, WriteState::Written),
                ..old(self).deep_view()
            }),
    {
        self.writes.insert(name, WriteState::Written);
    }

    /// Whether all locks were granted.
    pub fn all_lock_granted(&self) -> (r: bool)
        ensures
            r == granted_all(self.deep_view()),
    {
        let ghost t = self.deep_view().trans_reads;
        let ghost w = self.deep_view().writes;
        for i in 0..self.trans_reads.entries.len()
            invariant
                t == self.deep_view().trans_reads,
                t.len() == self.trans_reads.entries@.len(),
                forall|j: int| 0 <= j < i ==> (#[trigger] t[j]).1 is Granted,
        {
            assert(t[i as int] == self.trans_reads.entries@[i as int].deep_view());
            match &self.trans_reads.entries[i].1 {
                TransReadState::Granted(_) => {},
                _ => {
                    assert(!(t[i as int].1 is Granted));
                    return false;
                },
            }
        }
        for i in 0..self.writes.entries.len()
            invariant
                w == self.deep_view().writes,
                w.len() == self.writes.entries@.len(),
                forall|j: int| 0 <= j < i ==> (#[trigger] w[j]).1 is Granted,
        {
            assert(w[i as int] == self.writes.entries@[i as int].deep_view());
            if self.writes.entries[i].1 != WriteState::Granted {
                assert(!(w[i as int].1 is Granted));
                return false;
            }
        }
        true
    }

    /// Whether every read has its result.
    pub fn all_read_finished(&self) -> (r: bool)
        ensures
            r == read_all(self.deep_view()),
    {
        let ghost t = self.deep_view().direct_reads;
        for i in 0..self.direct_reads.entries.len()
            invariant
                t == self.deep_view().direct_reads,
                t.len() == self.direct_reads.entries@.len(),
                forall|j: int| 0 <= j < i ==> (#[trigger] t[j]).1 is Read,
        {
            assert(t[i as int] == self.direct_reads.entries@[i as int].deep_view());
            match &self.direct_reads.entries[i].1 {
                DirectReadState::Read(_) => {},
                _ => {
                    assert(!(t[i as int].1 is Read));
                    return false;
                },
            }
        }
        true
    }

    /// The results of all reads, once they have them.
    pub fn get_read_results(&self) -> (r: Vec<(String, Expr)>)
        requires
            read_all(self.deep_view()),
        ensures
            r.deep_view() == results(
                self.deep_view().direct_reads,
                self.deep_view().direct_reads.len(),
            ),
            r@.len() == self.deep_view().direct_reads.len(),
    {
        proof {
            law_all_results(self.deep_view().direct_reads, self.deep_view().direct_reads.len());
        }
        self.finished_results()
    }

    /// The results of the reads that have one.
    pub fn finished_results(&self) -> (r: Vec<(String, Expr)>)
        ensures
            r.deep_view() == results(
                self.deep_view().direct_reads,
                self.deep_view().direct_reads.len(),
            ),
    {
        let ghost t = self.deep_view().direct_reads;
        let mut out: Vec<(String, Expr)> = Vec::new();
        assert(out.deep_view() =~= Seq::<(Seq<char>, ExprM<Symbol>)>::empty());
        for i in 0..self.direct_reads.entries.len()
            invariant
                t == self.deep_view().direct_reads,
                t.len() == self.direct_reads.entries@.len(),
                out.deep_view() == results(t, i as nat),
        {
            assert(t[i as int] == self.direct_reads.entries@[i as int].deep_view());
            let ghost before = out.deep_view();
            match &self.direct_reads.entries[i].1 {
                DirectReadState::Read(e) => {
                    out.push((self.direct_reads.entries[i].0.clone(), e.dup()));
                    assert(out.deep_view() =~= before.push((t[i as int].0, e.deep_view())));
                },
                _ => {},
            }
        }
        out
    }

    /// Whether every write was made.
    pub fn all_write_finished(&self) -> (r: bool)
        ensures
            r == written_all(self.deep_view()),
    {
        let ghost w = self.deep_view().writes;
        for i in 0..self.writes.entries.len()
            invariant
                w == self.deep_view().writes,
                w.len() == self.writes.entries@.len(),
                forall|j: int| 0 <= j < i ==> (#[trigger] w[j]).1 is Written,
        {
            assert(w[i as int] == self.writes.entries@[i as int].deep_view());
            if self.writes.entries[i].1 != WriteState::Written {
                assert(!(w[i as int].1 is Written));
                return false;
            }
        }
        true
    }

    /// A lock was refused, so the transaction is given up with all its locks.
    pub fn abort_lock(&mut self)
        ensures
            final(self).deep_view() == refused_all(old(self).deep_view()),
    {
        let ghost m0 = self.deep_view();
        let mut reads: Vec<(String, TransReadState)> = Vec::new();
        for i in 0..self.trans_reads.entries.len()
            invariant
                m0 == self.deep_view(),
                m0.trans_reads.len() == self.trans_reads.entries@.len(),
                reads@.len() == i,
                forall|j: int|
                    0 <= j < i ==> (#[trigger] reads@[j]).deep_view() == (
                        m0.trans_reads[j].0,
                        TransReadM::Aborted,
                    ),
        {
            assert(m0.trans_reads[i as int] == self.trans_reads.entries@[i as int].deep_view());
            reads.push((self.trans_reads.entries[i].0.clone(), TransReadState::Aborted));
        }
        let mut writes: Vec<(String, WriteState)> = Vec::new();
        for i in 0..self.writes.entries.len()
            invariant
                m0 == self.deep_view(),
                m0.writes.len() == self.writes.entries@.len(),
                writes@.len() == i,
                forall|j: int|
                    0 <= j < i ==> (#[trigger] writes@[j]).deep_view() == (
                        m0.writes[j].0,
                        WriteState::Aborted,
                    ),
        {
            assert(m0.writes[i as int] == self.writes.entries@[i as int].deep_view());
            writes.push((self.writes.entries[i].0.clone(), WriteState::Aborted));
        }
        self.trans_reads = Table { entries: reads };
        self.writes = Table { entries: writes };
        proof {
            assert(self.deep_view().trans_reads =~= refused_all(m0).trans_reads);
            assert(self.deep_view().writes =~= refused_all(m0).writes);
        }
    }

    /// Whether a lock was refused.
    pub fn is_aborted(&self) -> (r: bool)
        ensures
            r == refused_any(self.deep_view()),
    {
        let ghost t = self.deep_view().trans_reads;
        let ghost w = self.deep_view().writes;
        for i in 0..self.trans_reads.entries.len()
            invariant
                t == self.deep_view().trans_reads,
                t.len() == self.trans_reads.entries@.len(),
                forall|j: int| 0 <= j < i ==> !((#[trigger] t[j]).1 is Aborted),
        {
            assert(t[i as int] == self.trans_reads.entries@[i as int].deep_view());
            match &self.trans_reads.entries[i].1 {
                TransReadState::Aborted => {
                    assert(t[i as int].1 is Aborted);
                    return true;
                },
                _ => {},
            }
        }
        for i in 0..self.writes.entries.len()
            invariant
                w == self.deep_view().writes,
                w.len() == self.writes.entries@.len(),
                forall|j: int| 0 <= j < i ==> !((#[trigger] w[j]).1 is Aborted),
        {
            assert(w[i as int] == self.writes.entries@[i as int].deep_view());
            if self.writes.entries[i].1 == WriteState::Aborted {
                assert(w[i as int].1 is Aborted);
                return true;
            }
        }
        false
    }

    /// The client that waits for the transaction.
    pub fn get_client_sender(&self) -> (r: &C)
        ensures
            *r == self.deep_view().from_client,
    {
        &self.from_client
    }
}

/// A transaction with a refused lock never has all its locks, and one that has
/// locks and was given up has refused ones.
pub proof fn law_refused<C>(m: TxnManagerM<C>)
    ensures
        refused_any(m) ==> !granted_all(m),
        m.trans_reads.len() > 0 || m.writes.len() > 0 ==> refused_any(refused_all(m)),
{
    if m.trans_reads.len() > 0 {
        assert(refused_all(m).trans_reads[0].1 is Aborted);
    }
    if m.writes.len() > 0 {
        assert(refused_all(m).writes[0].1 is Aborted);
    }
}

/// Where every read has its result, there is one result for each.
pub proof fn law_all_results(reads: Seq<(Seq<char>, DirectReadM)>, n: nat)
    requires
        n <= reads.len(),
        forall|i: int| 0 <= i < reads.len() ==> (#[trigger] reads[i]).1 is Read,
    ensures
        results(reads, n).len() == n,
        forall|i: int|
            0 <= i < n ==> #[trigger] results(reads, n)[i] == (reads[i].0, reads[i].1->Read_0),
    decreases n,
{
    if n > 0 {
        law_all_results(reads, (n - 1) as nat);
        assert(reads[n - 1].1 is Read);
    }
}

/// The transactions that are watched over.
#[derive(Debug, Clone)]
pub struct TxnManagers<C> {
    pub txn_mgrs: Table<TxnId, TxnManager<C>>,
}

impl<C> DeepView for TxnManagers<C> {
    type V = Seq<(TxnId, TxnManagerM<C>)>;

    open spec fn deep_view(&self) -> Seq<(TxnId, TxnManagerM<C>)> {
        self.txn_mgrs.deep_view()
    }
}

impl<C> TxnManagers<C> {
    /// The results of a transaction's reads that have one.
    pub fn get_read_results(&self, txn_id: &TxnId) -> (r: Vec<(String, Expr)>)
        requires
            table::bound(self.deep_view(), *txn_id),
        ensures
            ({
                let m = table::get(self.deep_view(), *txn_id)->Some_0;
                r.deep_view() == results(m.direct_reads, m.direct_reads.len())
            }),
    {
        self.txn_mgrs.get(txn_id).unwrap().finished_results()
    }

    /// The transactions that have to be applied before a transaction.
    pub fn get_preds(&self, txn_id: &TxnId) -> (r: &Vec<Txn>)
        requires
            table::bound(self.deep_view(), *txn_id),
        ensures
            r.deep_view() == table::get(self.deep_view(), *txn_id)->Some_0.preds,
    {
        &self.txn_mgrs.get(txn_id).unwrap().preds
    }

    /// A lock was granted to a transaction.
    pub fn add_grant_lock(
        &mut self,
        txn_id: &TxnId,
        name: String,
        kind: LockKind,
        pred_id: Option<TxnId>,
    )
        requires
            table::get(old(self).deep_view(), *txn_id) matches Some(m) && (kind is Read
                ==> table::get(m.trans_reads, name@) == Some(TransReadM::Requested)),
        ensures
            final(self).deep_view() == table::put(
                old(self).deep_view(),
                *txn_id,
                with_grant(
                    table::get(old(self).deep_view(), *txn_id)->Some_0,
                    name@,
                    kind,
                    pred_id,
                ),
            ),
    {
        match self.txn_mgrs.get_mut(txn_id) {
            Some(m) => m.add_grant_lock(name, kind, pred_id),
            None => {},
        }
    }

    /// A read of a transaction has its result.
    pub fn add_finished_read(
        &mut self,
        txn_id: &TxnId,
        name: String,
        result: Expr,
        pred: Vec<Txn>,
    )
        requires
            table::get(old(self).deep_view(), *txn_id) matches Some(m) && (table::get(
                m.direct_reads,
                name@,
            ) matches Some(s) && s is RequestedAndDepend),
        ensures
            final(self).deep_view() == table::put(
                old(self).deep_view(),
                *txn_id,
                with_read(
                    table::get(old(self).deep_view(), *txn_id)->Some_0,
                    name@,
                    result.deep_view(),
                    pred.deep_view(),
                ),
            ),
    {
        match self.txn_mgrs.get_mut(txn_id) {
            Some(m) => m.add_finished_read(name, result, pred),
            None => {},
        }
    }

    /// A write of a transaction was made.
    pub fn add_finished_write(&mut self, txn_id: &TxnId, name: String)
        requires
            table::get(old(self).deep_view(), *txn_id) matches Some(m) && table::get(
                m.writes,
                name@,
            ) == Some(WriteState::Granted),
        ensures
            ({
                let m = table::get(old(self).deep_view(), *txn_id)->Some_0;
                final(self).deep_view() == table::put(
                    old(self).deep_view(),
                    *txn_id,
                    TxnManagerM {
                        writes: table::put(m.writes, name@, WriteState::Written),
                        ..m
                    },
                )
            }),
    {
        match self.txn_mgrs.get_mut(txn_id) {
            Some(m) => m.add_finished_write(name),
            None => {},
        }
    }

    /// A lock of a transaction was refused.
    pub fn abort_lock(&mut self, txn_id: &TxnId)
        requires
            table::bound(old(self).deep_view(), *txn_id),
        ensures
            final(self).deep_view() == table::put(
                old(self).deep_view(),
                *txn_id,
                refused_all(table::get(old(self).deep_view(), *txn_id)->Some_0),
            ),
    {
        match self.txn_mgrs.get_mut(txn_id) {
            Some(m) => m.abort_lock(),
            None => {},
        }
    }

    /// Whether all locks of a transaction were granted.
    pub fn all_lock_granted(&self, txn_id: &TxnId) -> (r: bool)
        requires
            table::bound(self.deep_view(), *txn_id),
        ensures
            r == granted_all(table::get(self.deep_view(), *txn_id)->Some_0),
    {
        self.txn_mgrs.get(txn_id).unwrap().all_lock_granted()
    }

    /// Whether every read of a transaction has its result.
    pub fn all_read_finished(&self, txn_id: &TxnId) -> (r: bool)
        requires
            table::bound(self.deep_view(), *txn_id),
        ensures
            r == read_all(table::get(self.deep_view(), *txn_id)->Some_0),
    {
        self.txn_mgrs.get(txn_id).unwrap().all_read_finished()
    }

    /// Whether every write of a transaction was made.
    pub fn all_write_finished(&self, txn_id: &TxnId) -> (r: bool)
        requires
            table::bound(self.deep_view(), *txn_id),
        ensures
            r == written_all(table::get(self.deep_view(), *txn_id)->Some_0),
    {
        self.txn_mgrs.get(txn_id).unwrap().all_write_finished()
    }

    /// The client that waits for a transaction.
    pub fn get_client_sender(&self, txn_id: &TxnId) -> (r: &C)
        requires
            table::bound(self.deep_view(), *txn_id),
        ensures
            *r == table::get(self.deep_view(), *txn_id)->Some_0.from_client,
    {
        self.txn_mgrs.get(txn_id).unwrap().get_client_sender()
    }

    /// Whether a lock of a transaction was refused.
    pub fn is_aborted(&self, txn_id: &TxnId) -> (r: bool)
        requires
            table::bound(self.deep_view(), *txn_id),
        ensures
            r == refused_any(table::get(self.deep_view(), *txn_id)->Some_0),
    {
        self.txn_mgrs.get(txn_id).unwrap().is_aborted()
    }
}

/// The state of a read that an assertion rests on.
#[derive(Debug, Clone, Copy, PartialEq, Eq)]
pub enum TestTransReadState {
    Requested,
    /// The read comes after this transaction.
    Depend(Option<TxnId>),
}

/// Watches over an assertion that the actor `assert_actor` computes.
#[derive(Debug, Clone)]
pub struct TestManager<A> {
    pub test_id: u64,
    pub assert_actor: A,
    pub trans_reads: Table<String, TestTransReadState>,
}

/// A granted lock is granted, with what it says of the write before; the locks of
/// other names stay as they are. A lock for writing is one for reading too, where
/// the name is read.
pub proof fn law_granted_is_granted<C>(
    m: TxnManagerM<C>,
    name: Seq<char>,
    kind: LockKind,
    pred: Option<TxnId>,
    other: Seq<char>,
)
    requires
        other != name,
    ensures
        ({
            let z = with_grant(m, name, kind, pred);
            &&& kind is Read || table::bound(m.trans_reads, name) ==> table::get(
                z.trans_reads,
                name,
            ) == Some(TransReadM::Granted(pred))
            &&& kind is Read ==> z.writes == m.writes
            &&& !(kind is Read) ==> table::get(z.writes, name) == Some(WriteState::Granted)
            &&& table::get(z.trans_reads, other) == table::get(m.trans_reads, other)
            &&& table::get(z.writes, other) == table::get(m.writes, other)
            &&& z.direct_reads == m.direct_reads
        }),
{
    table::lemma_put(m.trans_reads, name, TransReadM::Granted(pred), other);
    table::lemma_put(m.writes, name, WriteState::Granted, other);
}

proof fn lemma_result(reads: Seq<(Seq<char>, DirectReadM)>, n: nat, i: int)
    requires
        0 <= i < n <= reads.len(),
        reads[i].1 is Read,
    ensures
        results(reads, n).contains((reads[i].0, reads[i].1->Read_0)),
    decreases n,
{
    let x = (reads[i].0, reads[i].1->Read_0);
    let all = results(reads, n);
    if i == n - 1 {
        assert(all.last() == x);
        assert(all[all.len() - 1] == x);
    } else {
        lemma_result(reads, (n - 1) as nat, i);
        let before = results(reads, (n - 1) as nat);
        let k = choose|k: int| 0 <= k < before.len() && before[k] == x;
        assert(all[k] == x);
    }
}

/// What a finished read gave is among the results.
pub proof fn law_read_is_a_result<C>(
    m: TxnManagerM<C>,
    name: Seq<char>,
    result: ExprM<Symbol>,
    pred: Seq<ChangeTxnM>,
)
    ensures
        ({
            let z = with_read(m, name, result, pred);
            results(z.direct_reads, z.direct_reads.len()).contains((name, result))
        }),
{
    let t = with_read(m, name, result, pred).direct_reads;
    table::lemma_put(m.direct_reads, name, DirectReadM::Read(result), name);
    table::lemma_slot(t, name);
    lemma_result(t, t.len(), table::slot(t, name) as int);
}

proof fn lemma_requested(
    t: Seq<(Seq<char>, TransReadM)>,
    names: Seq<Seq<char>>,
    n: nat,
    v: Seq<char>,
)
    requires
        n <= names.len(),
        table::get(t, v) == Some(TransReadM::Requested) || exists|k: int|
            0 <= k < n && #[trigger] names[k] == v,
    ensures
        table::get(requested(t, names, n), v) == Some(TransReadM::Requested),
    decreases n,
{
    if n > 0 {
        let before = requested(t, names, (n - 1) as nat);
        table::lemma_put(before, names[n - 1], TransReadM::Requested, v);
        if names[n - 1] != v {
            lemma_requested(t, names, (n - 1) as nat, v);
        }
    }
}

proof fn lemma_through(
    reads: Seq<Seq<char>>,
    deps: Seq<(Seq<char>, Seq<Seq<char>>)>,
    n: nat,
    i: int,
    k: int,
)
    requires
        0 <= i < n <= reads.len(),
        0 <= k < table::get(deps, reads[i])->Some_0.len(),
    ensures
        table::get(all_trans_reads(reads, deps, n), table::get(deps, reads[i])->Some_0[k]) == Some(
            TransReadM::Requested,
        ),
    decreases n,
{
    let v = table::get(deps, reads[i])->Some_0[k];
    let vars = table::get(deps, reads[n - 1])->Some_0;
    if i < n - 1 {
        lemma_through(reads, deps, (n - 1) as nat, i, k);
    }
    lemma_requested(all_trans_reads(reads, deps, (n - 1) as nat), vars, vars.len(), v);
}

proof fn lemma_direct(
    reads: Seq<Seq<char>>,
    deps: Seq<(Seq<char>, Seq<Seq<char>>)>,
    n: nat,
    i: int,
)
    requires
        0 <= i < n <= reads.len(),
    ensures
        table::get(all_direct_reads(reads, deps, n), reads[i]) == Some(
            DirectReadM::RequestedAndDepend(table::get(deps, reads[i])->Some_0),
        ),
    decreases n,
{
    let before = all_direct_reads(reads, deps, (n - 1) as nat);
    let d = DirectReadM::RequestedAndDepend(table::get(deps, reads[n - 1])->Some_0);
    table::lemma_put(before, reads[n - 1], d, reads[i]);
    if reads[i] != reads[n - 1] {
        lemma_direct(reads, deps, (n - 1) as nat, i);
    }
}

proof fn lemma_writes(writes: Seq<Seq<char>>, n: nat, i: int)
    requires
        0 <= i < n <= writes.len(),
    ensures
        table::get(all_writes(writes, n), writes[i]) == Some(WriteState::Requested),
    decreases n,
{
    let before = all_writes(writes, (n - 1) as nat);
    table::lemma_put(before, writes[n - 1], WriteState::Requested, writes[i]);
    if writes[i] != writes[n - 1] {
        lemma_writes(writes, (n - 1) as nat, i);
    }
}

/// At first all is requested that a transaction needs: each name that it reads,
/// each variable that such a name goes back to, and each name that it writes.
pub proof fn law_all_is_requested(
    reads: Seq<Seq<char>>,
    deps: Seq<(Seq<char>, Seq<Seq<char>>)>,
    writes: Seq<Seq<char>>,
)
    ensures
        forall|i: int|
            0 <= i < reads.len() ==> table::get(
                all_direct_reads(reads, deps, reads.len()),
                #[trigger] reads[i],
            ) == Some(DirectReadM::RequestedAndDepend(table::get(deps, reads[i])->Some_0)),
        forall|i: int, k: int|
            0 <= i < reads.len() && 0 <= k < table::get(deps, reads[i])->Some_0.len()
                ==> table::get(
                all_trans_reads(reads, deps, reads.len()),
                #[trigger] table::get(deps, reads[i])->Some_0[k],
            ) == Some(TransReadM::Requested),
        forall|i: int|
            0 <= i < writes.len() ==> table::get(
                all_writes(writes, writes.len()),
                #[trigger] writes[i],
            ) == Some(WriteState::Requested),
{
    assert forall|i: int| 0 <= i < reads.len() implies table::get(
        all_direct_reads(reads, deps, reads.len()),
        #[trigger] reads[i],
    ) == Some(DirectReadM::RequestedAndDepend(table::get(deps, reads[i])->Some_0)) by {
        lemma_direct(reads, deps, reads.len(), i);
    }
    assert forall|i: int, k: int|
        0 <= i < reads.len() && 0 <= k < table::get(deps, reads[i])->Some_0.len() implies table::get(
        all_trans_reads(reads, deps, reads.len()),
        #[trigger] table::get(deps, reads[i])->Some_0[k],
    ) == Some(TransReadM::Requested) by {
        lemma_through(reads, deps, reads.len(), i, k);
    }
    assert forall|i: int| 0 <= i < writes.len() implies table::get(
        all_writes(writes, writes.len()),
        #[trigger] writes[i],
    ) == Some(WriteState::Requested) by {
        lemma_writes(writes, writes.len(), i);
    }
}

} // verus!
