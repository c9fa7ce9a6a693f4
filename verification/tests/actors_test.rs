use meerkat::runtime::actors::{
    Insert, PubSub, TableActor, TableNotice, TableRequest, TableTxn, VarActor,
};
use meerkat::runtime::ast::{Expr, Value};
use meerkat::runtime::def_actor::state::history::AppliedChanges;
use meerkat::runtime::def_actor::state::{Assn, ChangeId, PropChange, Txn};
use meerkat::runtime::manager::action::{LockKind, TxnManager, TxnManagers};
use meerkat::runtime::table::Table;
use meerkat::runtime::txn::{TxnId, VarLock, WaitDie};

fn number(val: i32) -> Expr {
    Expr::Literal {
        val: Value::Int { val },
    }
}

fn id(timestamp: u128) -> TxnId {
    TxnId::new(timestamp, 1)
}

fn writes(timestamp: u128, names: &[&str]) -> Txn {
    Txn {
        id: id(timestamp),
        assns: names
            .iter()
            .map(|n| Assn {
                dest: n.to_string(),
                src: number(1),
            })
            .collect(),
    }
}

#[test]
fn subscribers_are_told() {
    let mut p: PubSub<u64> = PubSub::new();
    p.subscribe(3);
    p.subscribe(4);
    let mut out: Vec<(u64, String)> = vec![];
    p.publish(&"x".to_string(), &mut out);
    assert_eq!(out, vec![(3, "x".to_string()), (4, "x".to_string())]);
    let v: VarActor<u64> = VarActor::new("v".to_string(), number(1));
    assert!(matches!(v.lock_state, VarLock::Unlocked));
}

#[test]
fn tables_grow_and_tell() {
    let mut t: TableActor<u64> = TableActor::new("t".to_string(), vec![]);
    let (granted, _) = t.handle(TableRequest::Subscribe { from_addr: 7 });
    assert!(matches!(
        granted,
        TableNotice::SubscribeGranted { preds, .. } if preds.is_empty()
    ));
    let (_, told) = t.handle(TableRequest::UserWriteTableRequest {
        from_mgr_addr: 9,
        txn: TableTxn {
            id: id(5),
            inserts: vec![Insert {
                table_name: "t".to_string(),
                row: number(1),
            }],
        },
    });
    assert_eq!(t.records, vec![number(1)]);
    assert!(t.latest_write_txn.as_ref().unwrap().id == id(5));
    assert!(told.iter().any(|(to, n)| *to == 7
        && matches!(n, TableNotice::PropChange { preds, .. }
            if preds.len() == 1 && preds[0].id == id(5) && preds[0].inserts.len() == 1)));
    assert!(told
        .iter()
        .any(|(to, n)| *to == 9 && matches!(n, TableNotice::UserWriteTableFinish { .. })));
}

/// A change whose writes have all been overwritten is dropped
#[test]
fn overwritten_changes_are_dropped() {
    let mut h = AppliedChanges::new();
    h.add_change(&PropChange {
        id: ChangeId(1),
        preds: vec![writes(10, &["a"])],
    });
    h.add_change(&PropChange {
        id: ChangeId(2),
        preds: vec![writes(20, &["a", "b"])],
    });
    assert_eq!(h.get_undropped_changes(), vec![ChangeId(2)]);
    assert!(h.has_change(&ChangeId(1)));
    assert!(!h.has_change(&ChangeId(3)));
    let mut all = h.get_all_applied_changes();
    all.sort_by_key(|c| c.0);
    assert_eq!(all, vec![ChangeId(1), ChangeId(2)]);
}

#[test]
fn locks_of_a_transaction() {
    let mut m = TxnManager::new(
        writes(1, &["a"]),
        0u64,
        &vec![],
        &Table::new(),
        &vec!["a".to_string()],
    );
    assert!(!m.all_lock_granted());
    assert!(!m.is_aborted());
    m.add_grant_lock("a".to_string(), LockKind::Write, None);
    assert!(m.all_lock_granted());
    assert!(m.all_read_finished());
    assert!(!m.all_write_finished());
    m.add_finished_write("a".to_string());
    assert!(m.all_write_finished());
    assert_eq!(*m.get_client_sender(), 0);
    m.abort_lock();
    assert!(m.is_aborted());
}

/// A transaction that reads a definition over a variable has its result, and
/// the transactions that this rests on, once the read is finished.
#[test]
fn reads_of_a_transaction() {
    let mut deps: Table<String, Vec<String>> = Table::new();
    deps.insert("d".to_string(), vec!["x".to_string()]);
    let mut m = TxnManager::new(
        writes(1, &[]),
        7u64,
        &vec!["d".to_string()],
        &deps,
        &vec![],
    );
    assert!(!m.all_lock_granted());
    m.add_grant_lock("x".to_string(), LockKind::Read, Some(id(0)));
    assert!(m.all_lock_granted());
    assert!(!m.all_read_finished());
    m.add_finished_read(
        "d".to_string(),
        number(5),
        vec![writes(0, &["x"]), writes(0, &["x"])],
    );
    assert!(m.all_read_finished());

    let mut all: TxnManagers<u64> = TxnManagers {
        txn_mgrs: Table::new(),
    };
    all.txn_mgrs.insert(id(1), m);
    assert_eq!(
        all.get_read_results(&id(1)),
        vec![("d".to_string(), number(5))]
    );
    let preds = all.get_preds(&id(1));
    assert_eq!(preds.len(), 1);
    assert!(preds[0].id == id(0));
    assert!(all.all_read_finished(&id(1)));
    assert!(all.all_write_finished(&id(1)));
    assert_eq!(*all.get_client_sender(&id(1)), 7);
    assert!(!all.is_aborted(&id(1)));
    all.abort_lock(&id(1));
    assert!(all.is_aborted(&id(1)));
    assert!(!all.all_lock_granted(&id(1)));
}

/// The same through the table of managers: a read that is finished counts for
/// its own transaction alone.
#[test]
fn reads_finish_by_transaction() {
    let mut deps: Table<String, Vec<String>> = Table::new();
    deps.insert("d".to_string(), vec![]);
    let mut all: TxnManagers<u64> = TxnManagers {
        txn_mgrs: Table::new(),
    };
    for t in 1..3 {
        let m = TxnManager::new(writes(t, &[]), 0u64, &vec!["d".to_string()], &deps, &vec![]);
        all.txn_mgrs.insert(id(t), m);
    }
    all.add_finished_read(&id(2), "d".to_string(), number(5), vec![]);
    assert!(!all.all_read_finished(&id(1)));
    assert!(all.all_read_finished(&id(2)));
}

#[test]
fn locks_are_shared_or_not() {
    let mut l = VarLock::Unlocked;
    assert!(l.try_read(&id(1)));
    assert!(l.try_read(&id(2)));
    assert!(!l.upgrade_to_write(&id(1)));
    l.release(&id(2));
    assert!(l.upgrade_to_write(&id(1)));
    assert!(!l.try_write(&id(3)));
    assert!(!l.try_read(&id(3)));
    assert!(matches!(l.wait_die(&id(0)), WaitDie::Wait));
    assert!(matches!(l.wait_die(&id(9)), WaitDie::Die));
    l.release(&id(1));
    assert!(matches!(l, VarLock::Unlocked));
}
