//! Actors that hold a variable or a table and tell others of changes.
//!
//! An actor does not send by itself: it gives what is to be sent, and the host
//! sends it.

use crate::runtime::ast::model::{ExprM, FieldM};
use crate::runtime::ast::{Expr, Field};
use crate::runtime::def_actor::state::Txn;
use crate::runtime::interner::Symbol;
use crate::runtime::table::Plain;
use crate::runtime::txn::{LockM, TxnId, VarLock};
use vstd::prelude::*;

verus! {

/// Those who are told of changes, by their addresses.
#[derive(Debug, Clone)]
pub struct PubSub<A> {
    pub subscribers: Vec<A>,
}

impl<A> PubSub<A> {
    /// Nobody is told.
    pub fn new() -> (r: PubSub<A>)
        ensures
            r.subscribers@ == Seq::<A>::empty(),
    {
        PubSub { subscribers: Vec::new() }
    }

    /// One more is told from now on.
    pub fn subscribe(&mut self, subscriber: A)
        ensures
            final(self).subscribers@ == old(self).subscribers@.push(subscriber),
    {
        self.subscribers.push(subscriber);
    }
}

impl<A: Plain> PubSub<A> {
    /// A message for each subscriber, in the order in which they subscribed.
    pub fn publish<M: Plain>(&self, msg: &M, out: &mut Vec<(A, M)>)
        ensures
            final(out).deep_view() == old(out).deep_view() + published(
                self.subscribers.deep_view(),
                msg.deep_view(),
            ),
    {
        let ghost o = out.deep_view();
        let ghost s = self.subscribers.deep_view();
        let ghost p = published(s, msg.deep_view());
        assert(o + p.take(0) =~= o);
        for i in 0..self.subscribers.len()
            invariant
                s == self.subscribers.deep_view(),
                p == published(s, msg.deep_view()),
                out.deep_view() == o + p.take(i as int),
        {
            let ghost before = out.deep_view();
            out.push((self.subscribers[i].dup(), msg.dup()));
            proof {
                assert(out.deep_view() =~= before.push(p[i as int]));
                assert(p.take(i + 1) =~= p.take(i as int).push(p[i as int]));
                assert(o + p.take(i + 1) =~= before.push(p[i as int]));
            }
        }
        assert(p.take(p.len() as int) =~= p);
    }
}

/// A message for each subscriber.
pub open spec fn published<A, M>(subscribers: Seq<A>, msg: M) -> Seq<(A, M)> {
    Seq::new(subscribers.len(), |i: int| (subscribers[i], msg))
}

/// An actor that holds a variable.
#[derive(Debug, Clone)]
pub struct VarActor<A> {
    pub name: String,
    pub value: Expr,
    pub pubsub: PubSub<A>,
    pub lock_state: VarLock,
    pub latest_write_txn: Option<Txn>,
}

impl<A> VarActor<A> {
    /// A variable that nobody has locked or written.
    pub fn new(name: String, val: Expr) -> (r: VarActor<A>)
        ensures
            r.name@ == name@,
            r.value.deep_view() == val.deep_view(),
            r.pubsub.subscribers@ == Seq::<A>::empty(),
            r.lock_state.deep_view() == LockM::Unlocked,
            r.latest_write_txn is None,
    {
        VarActor {
            name,
            value: val,
            pubsub: PubSub::new(),
            lock_state: VarLock::Unlocked,
            latest_write_txn: None,
        }
    }
}

/// A row that a transaction inserts.
#[derive(Debug, Clone)]
pub struct Insert {
    pub table_name: String,
    pub row: Expr,
}

/// The model of an [`Insert`].
pub struct InsertM {
    pub table_name: Seq<char>,
    pub row: ExprM<Symbol>,
}

impl DeepView for Insert {
    type V = InsertM;

    open spec fn deep_view(&self) -> InsertM {
        InsertM { table_name: self.table_name@, row: self.row.deep_view() }
    }
}

/// A transaction on tables.
#[derive(Debug, Clone)]
pub struct TableTxn {
    pub id: TxnId,
    pub inserts: Vec<Insert>,
}

/// The model of a [`TableTxn`].
pub struct TableTxnM {
    pub id: TxnId,
    pub inserts: Seq<InsertM>,
}

impl DeepView for TableTxn {
    type V = TableTxnM;

    open spec fn deep_view(&self) -> TableTxnM {
        TableTxnM { id: self.id, inserts: self.inserts.deep_view() }
    }
}

impl Plain for Insert {
    fn dup(&self) -> (r: Self) {
        Insert { table_name: self.table_name.clone(), row: self.row.dup() }
    }

    fn same(&self, other: &Self) -> (r: bool) {
        self.table_name.same(&other.table_name) && self.row.same(&other.row)
    }
}

impl Plain for TableTxn {
    fn dup(&self) -> (r: Self) {
        TableTxn { id: self.id, inserts: self.inserts.dup() }
    }

    fn same(&self, other: &Self) -> (r: bool) {
        self.id == other.id && self.inserts.same(&other.inserts)
    }
}

/// What is asked of a table.
#[derive(Debug, Clone)]
pub enum TableRequest<A> {
    Subscribe { from_addr: A },
    UserReadTableRequest { from_mgr_addr: A, txn: TxnId, table_name: String },
    UserWriteTableRequest { from_mgr_addr: A, txn: TableTxn },
    TestRequestPred { from_mgr_addr: A, test_id: u64 },
}

/// The model of a [`TableRequest`].
pub enum TableRequestM<A> {
    Subscribe { from_addr: A },
    UserReadTableRequest { from_mgr_addr: A, txn: TxnId, table_name: Seq<char> },
    UserWriteTableRequest { from_mgr_addr: A, txn: TableTxnM },
    TestRequestPred { from_mgr_addr: A, test_id: u64 },
}

impl<A: DeepView> DeepView for TableRequest<A> {
    type V = TableRequestM<A::V>;

    open spec fn deep_view(&self) -> TableRequestM<A::V> {
        match *self {
            TableRequest::Subscribe { from_addr } => TableRequestM::Subscribe {
                from_addr: from_addr.deep_view(),
            },
            TableRequest::UserReadTableRequest { from_mgr_addr, txn, table_name } =>
                TableRequestM::UserReadTableRequest {
                from_mgr_addr: from_mgr_addr.deep_view(),
                txn,
                table_name: table_name@,
            },
            TableRequest::UserWriteTableRequest { from_mgr_addr, txn } =>
                TableRequestM::UserWriteTableRequest {
                from_mgr_addr: from_mgr_addr.deep_view(),
                txn: txn.deep_view(),
            },
            TableRequest::TestRequestPred { from_mgr_addr, test_id } =>
                TableRequestM::TestRequestPred {
                from_mgr_addr: from_mgr_addr.deep_view(),
                test_id,
            },
        }
    }
}

/// What a table says.
#[derive(Debug, Clone)]
pub enum TableNotice {
    Unit,
    /// The whole table, for a new subscriber, and the transactions that it rests
    /// on. Tables only grow, so that there are none.
    SubscribeGranted { name: String, value: Expr, preds: Vec<TableTxn> },
    UserReadTableResult { txn: TxnId, name: String, result: Expr },
    UserWriteTableFinish { txn: TxnId, name: String },
    /// A new row, and the transactions that it rests on: the one that it came
    /// with.
    PropChange { from_name: String, val: Expr, preds: Vec<TableTxn> },
    TestRequestPredGranted { from_name: String, test_id: u64, pred_id: Option<TxnId> },
}

/// The model of a [`TableNotice`].
pub enum TableNoticeM {
    Unit,
    SubscribeGranted { name: Seq<char>, value: ExprM<Symbol>, preds: Seq<TableTxnM> },
    UserReadTableResult { txn: TxnId, name: Seq<char>, result: ExprM<Symbol> },
    UserWriteTableFinish { txn: TxnId, name: Seq<char> },
    PropChange { from_name: Seq<char>, val: ExprM<Symbol>, preds: Seq<TableTxnM> },
    TestRequestPredGranted { from_name: Seq<char>, test_id: u64, pred_id: Option<TxnId> },
}

impl DeepView for TableNotice {
    type V = TableNoticeM;

    open spec fn deep_view(&self) -> TableNoticeM {
        match *self {
            TableNotice::Unit => TableNoticeM::Unit,
            TableNotice::SubscribeGranted { name, value, preds } => {
                TableNoticeM::SubscribeGranted {
                    name: name@,
                    value: value.deep_view(),
                    preds: preds.deep_view(),
                }
            },
            TableNotice::UserReadTableResult { txn, name, result } =>
                TableNoticeM::UserReadTableResult {
                txn,
                name: name@,
                result: result.deep_view(),
            },
            TableNotice::UserWriteTableFinish { txn, name } =>
                TableNoticeM::UserWriteTableFinish { txn, name: name@ },
            TableNotice::PropChange { from_name, val, preds } => TableNoticeM::PropChange {
                from_name: from_name@,
                val: val.deep_view(),
                preds: preds.deep_view(),
            },
            TableNotice::TestRequestPredGranted { from_name, test_id, pred_id } =>
                TableNoticeM::TestRequestPredGranted { from_name: from_name@, test_id, pred_id },
        }
    }
}

impl Plain for TableNotice {
    fn dup(&self) -> (r: Self) {
        match self {
            TableNotice::Unit => TableNotice::Unit,
            TableNotice::SubscribeGranted { name, value, preds } => {
                TableNotice::SubscribeGranted {
                    name: name.clone(),
                    value: value.dup(),
                    preds: preds.dup(),
                }
            },
            TableNotice::UserReadTableResult { txn, name, result } =>
                TableNotice::UserReadTableResult {
                txn: *txn,
                name: name.clone(),
                result: result.dup(),
            },
            TableNotice::UserWriteTableFinish { txn, name } => TableNotice::UserWriteTableFinish {
                txn: *txn,
                name: name.clone(),
            },
            TableNotice::PropChange { from_name, val, preds } => TableNotice::PropChange {
                from_name: from_name.clone(),
                val: val.dup(),
                preds: preds.dup(),
            },
            TableNotice::TestRequestPredGranted { from_name, test_id, pred_id } =>
                TableNotice::TestRequestPredGranted {
                from_name: from_name.clone(),
                test_id: *test_id,
                pred_id: *pred_id,
            },
        }
    }

    fn same(&self, other: &Self) -> (r: bool) {
        match (self, other) {
            (TableNotice::Unit, TableNotice::Unit) => true,
            (
                TableNotice::SubscribeGranted { name: a, value: b, preds: s },
                TableNotice::SubscribeGranted { name: c, value: d, preds: t },
            ) => a.same(c) && b.same(d) && s.same(t),
            (
                TableNotice::UserReadTableResult { txn: s, name: a, result: b },
                TableNotice::UserReadTableResult { txn: t, name: c, result: d },
            ) => *s == *t && a.same(c) && b.same(d),
            (
                TableNotice::UserWriteTableFinish { txn: s, name: a },
                TableNotice::UserWriteTableFinish { txn: t, name: c },
            ) => *s == *t && a.same(c),
            (
                TableNotice::PropChange { from_name: a, val: b, preds: s },
                TableNotice::PropChange { from_name: c, val: d, preds: t },
            ) => a.same(c) && b.same(d) && s.same(t),
            (
                TableNotice::TestRequestPredGranted { from_name: a, test_id: i, pred_id: s },
                TableNotice::TestRequestPredGranted { from_name: c, test_id: j, pred_id: t },
            ) => *i == *j && a.same(c) && s.same(t),
            _ => false,
        }
    }
}

/// An actor that holds a table. Rows are only ever added.
#[derive(Debug, Clone)]
pub struct TableActor<A> {
    pub name: String,
    pub schema: Vec<Field>,
    pub records: Vec<Expr>,
    pub pubsub: PubSub<A>,
    pub latest_write_txn: Option<TableTxn>,
}

/// The model of a [`TableActor`].
pub struct TableActorM<A> {
    pub name: Seq<char>,
    pub schema: Seq<FieldM<Symbol>>,
    pub records: Seq<ExprM<Symbol>>,
    pub subscribers: Seq<A>,
    pub latest_write_txn: Option<TableTxnM>,
}

impl<A: DeepView> DeepView for TableActor<A> {
    type V = TableActorM<A::V>;

    open spec fn deep_view(&self) -> TableActorM<A::V> {
        TableActorM {
            name: self.name@,
            schema: self.schema.deep_view(),
            records: self.records.deep_view(),
            subscribers: self.pubsub.subscribers.deep_view(),
            latest_write_txn: self.latest_write_txn.deep_view(),
        }
    }
}

/// The whole table, as an expression.
pub open spec fn table_value<A>(t: TableActorM<A>) -> ExprM<Symbol> {
    ExprM::Table { schema: t.schema, records: t.records }
}

/// The rows of the first `n` inserts.
pub open spec fn rows(inserts: Seq<InsertM>, n: nat) -> Seq<ExprM<Symbol>>
    decreases n,
{
    if n == 0 {
        seq![]
    } else {
        rows(inserts, (n - 1) as nat).push(inserts[n - 1].row)
    }
}

/// What the subscribers are told of the first `n` inserts.
pub open spec fn told<A>(t: TableActorM<A>, txn: TableTxnM, n: nat) -> Seq<(A, TableNoticeM)>
    decreases n,
{
    if n == 0 {
        seq![]
    } else {
        told(t, txn, (n - 1) as nat) + published(
            t.subscribers,
            TableNoticeM::PropChange {
                from_name: t.name,
                val: txn.inserts[n - 1].row,
                preds: seq![txn],
            },
        )
    }
}

/// What a request does: the reply, what is sent besides, and the table then.
pub open spec fn handled<A>(t: TableActorM<A>, msg: TableRequestM<A>) -> (
    TableNoticeM,
    Seq<(A, TableNoticeM)>,
    TableActorM<A>,
) {
    match msg {
        TableRequestM::Subscribe { from_addr } => (
            TableNoticeM::SubscribeGranted {
                name: t.name,
                value: table_value(t),
                preds: seq![],
            },
            seq![],
            TableActorM { subscribers: t.subscribers.push(from_addr), ..t },
        ),
        TableRequestM::UserReadTableRequest { from_mgr_addr, txn, table_name } => (
            TableNoticeM::Unit,
            seq![
                (
                    from_mgr_addr,
                    TableNoticeM::UserReadTableResult {
                        txn,
                        name: table_name,
                        result: table_value(t),
                    },
                ),
            ],
            t,
        ),
        TableRequestM::UserWriteTableRequest { from_mgr_addr, txn } => (
            TableNoticeM::Unit,
            seq![
                (
                    from_mgr_addr,
                    TableNoticeM::UserWriteTableFinish { txn: txn.id, name: t.name },
                ),
            ] + told(t, txn, txn.inserts.len()),
            TableActorM {
                records: t.records + rows(txn.inserts, txn.inserts.len()),
                latest_write_txn: Some(txn),
                ..t
            },
        ),
        TableRequestM::TestRequestPred { from_mgr_addr, test_id } => (
            TableNoticeM::Unit,
            seq![
                (
                    from_mgr_addr,
                    TableNoticeM::TestRequestPredGranted {
                        from_name: t.name,
                        test_id,
                        pred_id: match t.latest_write_txn {
                            Some(x) => Some(x.id),
                            None => None,
                        },
                    },
                ),
            ],
            t,
        ),
    }
}

impl<A: Plain> TableActor<A> {
    /// An empty table.
    pub fn new(name: String, schema: Vec<Field>) -> (r: TableActor<A>)
        ensures
            r.deep_view() == (TableActorM::<A::V> {
                name: name@,
                schema: schema.deep_view(),
                records: seq![],
                subscribers: seq![],
                latest_write_txn: None,
            }),
    {
        let r = TableActor {
            name,
            schema,
            records: Vec::new(),
            pubsub: PubSub::new(),
            latest_write_txn: None,
        };
        assert(r.records.deep_view() =~= Seq::<ExprM<Symbol>>::empty());
        assert(r.pubsub.subscribers.deep_view() =~= Seq::<A::V>::empty());
        r
    }

    /// The whole table, as an expression.
    fn value(&self) -> (r: Expr)
        ensures
            r.deep_view() == table_value(self.deep_view()),
    {
        let r = Expr::Table { schema: self.schema.dup(), records: self.records.dup() };
        proof {
            crate::runtime::ast::lemma_expr_model(r);
        }
        r
    }

    /// Handles a request: gives the reply and what is to be sent besides.
    pub fn handle(&mut self, msg: TableRequest<A>) -> (r: (TableNotice, Vec<(A, TableNotice)>))
        ensures
            (r.0.deep_view(), r.1.deep_view(), final(self).deep_view()) == handled(
                old(self).deep_view(),
                msg.deep_view(),
            ),
    {
        let mut out: Vec<(A, TableNotice)> = Vec::new();
        assert(out.deep_view() =~= Seq::<(A::V, TableNoticeM)>::empty());
        let ghost t0 = self.deep_view();
        match msg {
            TableRequest::Subscribe { from_addr } => {
                let none: Vec<TableTxn> = Vec::new();
                assert(none.deep_view() =~= Seq::<TableTxnM>::empty());
                let reply = TableNotice::SubscribeGranted {
                    name: self.name.clone(),
                    value: self.value(),
                    preds: none,
                };
                let ghost a = from_addr.deep_view();
                self.pubsub.subscribe(from_addr);
                assert(self.pubsub.subscribers.deep_view() =~= t0.subscribers.push(a));
                (reply, out)
            },
            TableRequest::UserReadTableRequest { from_mgr_addr, txn, table_name } => {
                let note = TableNotice::UserReadTableResult {
                    txn,
                    name: table_name,
                    result: self.value(),
                };
                let ghost one = (from_mgr_addr.deep_view(), note.deep_view());
                out.push((from_mgr_addr, note));
                assert(out.deep_view() =~= seq![one]);
                (TableNotice::Unit, out)
            },
            TableRequest::UserWriteTableRequest { from_mgr_addr, txn } => {
                let note = TableNotice::UserWriteTableFinish {
                    txn: txn.id,
                    name: self.name.clone(),
                };
                let ghost one = (from_mgr_addr.deep_view(), note.deep_view());
                out.push((from_mgr_addr, note));
                self.latest_write_txn = Some(txn.dup());
                let ghost tx = txn.deep_view();
                proof {
                    assert(out.deep_view() =~= seq![one]);
                    assert(seq![one] + told(t0, tx, 0) =~= seq![one]);
                    assert(t0.records + rows(tx.inserts, 0) =~= t0.records);
                }
                for i in 0..txn.inserts.len()
                    invariant
                        tx == txn.deep_view(),
                        out.deep_view() == seq![one] + told(t0, tx, i as nat),
                        self.deep_view() == (TableActorM {
                            records: t0.records + rows(tx.inserts, i as nat),
                            latest_write_txn: Some(tx),
                            ..t0
                        }),
                {
                    assert(tx.inserts[i as int] == txn.inserts@[i as int].deep_view());
                    let ghost before = self.records.deep_view();
                    let row = txn.inserts[i].row.dup();
                    let ghost row1 = row.deep_view();
                    self.records.push(row.dup());
                    let itself: Vec<TableTxn> = vec![txn.dup()];
                    assert(itself.deep_view() =~= seq![tx]);
                    let note = TableNotice::PropChange {
                        from_name: self.name.clone(),
                        val: row,
                        preds: itself,
                    };
                    let ghost sent = out.deep_view();
                    self.pubsub.publish(&note, &mut out);
                    proof {
                        let more = published(t0.subscribers, note.deep_view());
                        assert(self.records.deep_view() =~= before.push(row1));
                        assert(t0.records + rows(tx.inserts, (i + 1) as nat) =~= before.push(
                            row1,
                        ));
                        assert((seq![one] + told(t0, tx, i as nat)) + more =~= seq![one] + told(
                            t0,
                            tx,
                            (i + 1) as nat,
                        ));
                    }
                }
                (TableNotice::Unit, out)
            },
            TableRequest::TestRequestPred { from_mgr_addr, test_id } => {
                let note = TableNotice::TestRequestPredGranted {
                    from_name: self.name.clone(),
                    test_id,
                    pred_id: match &self.latest_write_txn {
                        Some(x) => Some(x.id),
                        None => None,
                    },
                };
                let ghost one = (from_mgr_addr.deep_view(), note.deep_view());
                out.push((from_mgr_addr, note));
                assert(out.deep_view() =~= seq![one]);
                (TableNotice::Unit, out)
            },
        }
    }
}

/// A table never loses a row or a subscriber, and keeps its name and columns.
pub proof fn law_tables_grow<A>(t: TableActorM<A>, msg: TableRequestM<A>)
    ensures
        ({
            let z = handled(t, msg).2;
            &&& t.records.is_prefix_of(z.records)
            &&& t.subscribers.is_prefix_of(z.subscribers)
            &&& z.name == t.name
            &&& z.schema == t.schema
        }),
{
}

proof fn lemma_rows(inserts: Seq<InsertM>, n: nat)
    ensures
        rows(inserts, n).len() == n,
        forall|i: int| 0 <= i < n ==> #[trigger] rows(inserts, n)[i] == inserts[i].row,
    decreases n,
{
    if n > 0 {
        lemma_rows(inserts, (n - 1) as nat);
    }
}

/// What is inserted is read: whoever reads a table after a write is sent all the
/// rows that were there, and then the inserted rows in their order.
pub proof fn law_inserted_is_read<A>(
    t: TableActorM<A>,
    writer: A,
    txn: TableTxnM,
    reader: A,
    id: TxnId,
    name: Seq<char>,
)
    ensures
        ({
            let t1 = handled(
                t,
                TableRequestM::UserWriteTableRequest { from_mgr_addr: writer, txn },
            ).2;
            let sent = handled(
                t1,
                TableRequestM::UserReadTableRequest {
                    from_mgr_addr: reader,
                    txn: id,
                    table_name: name,
                },
            ).1;
            let n = t.records.len();
            &&& sent.len() == 1
            &&& sent[0].0 == reader
            &&& sent[0].1 matches TableNoticeM::UserReadTableResult { txn: i, name: x, result }
            &&& i == id
            &&& x == name
            &&& result matches ExprM::Table { schema, records }
            &&& schema == t.schema
            &&& records.len() == n + txn.inserts.len()
            &&& forall|j: int| 0 <= j < n ==> #[trigger] records[j] == t.records[j]
            &&& forall|j: int|
                0 <= j < txn.inserts.len() ==> #[trigger] records[n + j] == txn.inserts[j].row
        }),
{
    lemma_rows(txn.inserts, txn.inserts.len());
}

proof fn lemma_told<A>(t: TableActorM<A>, txn: TableTxnM, n: nat, i: int, j: int)
    requires
        0 <= i < n <= txn.inserts.len(),
        0 <= j < t.subscribers.len(),
    ensures
        told(t, txn, n).contains(
            (
                t.subscribers[j],
                TableNoticeM::PropChange {
                    from_name: t.name,
                    val: txn.inserts[i].row,
                    preds: seq![txn],
                },
            ),
        ),
    decreases n,
{
    let note = TableNoticeM::PropChange {
        from_name: t.name,
        val: txn.inserts[i].row,
        preds: seq![txn],
    };
    let before = told(t, txn, (n - 1) as nat);
    let all = told(t, txn, n);
    if i == n - 1 {
        let more = published(t.subscribers, note);
        assert(more[j] == (t.subscribers[j], note));
        assert(all[before.len() + j] == (t.subscribers[j], note));
    } else {
        lemma_told(t, txn, (n - 1) as nat, i, j);
        let k = choose|k: int| 0 <= k < before.len() && before[k] == (t.subscribers[j], note);
        assert(all[k] == (t.subscribers[j], note));
    }
}

/// Whoever has subscribed to a table is told of each row that is inserted later,
/// and the writer that the write is finished.
pub proof fn law_insert_is_told<A>(
    t: TableActorM<A>,
    subscriber: A,
    writer: A,
    txn: TableTxnM,
    i: int,
)
    requires
        0 <= i < txn.inserts.len(),
    ensures
        ({
            let t1 = handled(t, TableRequestM::Subscribe { from_addr: subscriber }).2;
            let sent = handled(
                t1,
                TableRequestM::UserWriteTableRequest { from_mgr_addr: writer, txn },
            ).1;
            &&& sent.contains(
                (writer, TableNoticeM::UserWriteTableFinish { txn: txn.id, name: t.name }),
            )
            &&& sent.contains(
                (
                    subscriber,
                    TableNoticeM::PropChange {
                        from_name: t.name,
                        val: txn.inserts[i].row,
                        preds: seq![txn],
                    },
                ),
            )
        }),
{
    let t1 = handled(t, TableRequestM::Subscribe { from_addr: subscriber }).2;
    let n = txn.inserts.len();
    let sent = handled(
        t1,
        TableRequestM::UserWriteTableRequest { from_mgr_addr: writer, txn },
    ).1;
    let j = t.subscribers.len() as int;
    let note = TableNoticeM::PropChange {
        from_name: t.name,
        val: txn.inserts[i].row,
        preds: seq![txn],
    };
    lemma_told(t1, txn, n, i, j);
    assert(t1.subscribers[j] == subscriber);
    let k = choose|k: int|
        0 <= k < told(t1, txn, n).len() && told(t1, txn, n)[k] == (subscriber, note);
    assert(sent[1 + k] == (subscriber, note));
    assert(sent[0] == (writer, TableNoticeM::UserWriteTableFinish { txn: txn.id, name: t.name }));
}

/// A test that asks for the last write of a table is answered with the
/// transaction that wrote last.
pub proof fn law_last_writer_is_named<A>(
    t: TableActorM<A>,
    writer: A,
    txn: TableTxnM,
    asker: A,
    test: u64,
)
    ensures
        ({
            let t1 = handled(
                t,
                TableRequestM::UserWriteTableRequest { from_mgr_addr: writer, txn },
            ).2;
            let sent = handled(
                t1,
                TableRequestM::TestRequestPred { from_mgr_addr: asker, test_id: test },
            ).1;
            sent == seq![
                (
                    asker,
                    TableNoticeM::TestRequestPredGranted {
                        from_name: t.name,
                        test_id: test,
                        pred_id: Some(txn.id),
                    },
                ),
            ]
        }),
{
}

} // verus!
