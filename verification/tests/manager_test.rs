use meerkat::net::codec;
use meerkat::net::types::ServiceNetId;
use meerkat::runtime::ast::{ActionStmt, BinOp, Decl, Expr, Value};
use meerkat::runtime::interner::Symbol;
use meerkat::runtime::interpreter::evaluator::EvalError;
use meerkat::runtime::manager::{Manager, ParkedRequest};
use meerkat::runtime::table::Plain;
use meerkat::runtime::txn::{Transaction, TxnId, VarLock, VarState};

struct TestContext {
    manager: Manager,
    foo: Symbol,
    x: Symbol,
    y: Symbol,
    f: Symbol,
    s1: Symbol,
    s2: Symbol,
    w: Symbol,
    bump: Symbol,
    nonexistent: Symbol,
}

impl TestContext {
    fn new() -> Self {
        let mut manager = Manager::default();
        manager.advance_clock(1_700_000_000_000);
        let foo = manager.interner.insert("foo");
        let x = manager.interner.insert("x");
        let y = manager.interner.insert("y");
        let f = manager.interner.insert("f");
        let s1 = manager.interner.insert("s1");
        let s2 = manager.interner.insert("s2");
        let w = manager.interner.insert("w");
        let bump = manager.interner.insert("bump");
        let nonexistent = manager.interner.insert("nonexistent");
        Self {
            manager,
            foo,
            x,
            y,
            f,
            s1,
            s2,
            w,
            bump,
            nonexistent,
        }
    }

    fn read(&mut self, member: Symbol, service: Symbol) -> Result<Value, EvalError> {
        self.manager.lookup(member, service, &mut None)
    }
}

fn number(val: i32) -> Expr {
    Expr::Literal {
        val: Value::Int { val },
    }
}

fn boolean(val: bool) -> Expr {
    Expr::Literal {
        val: Value::Bool { val },
    }
}

fn name(name: Symbol) -> Expr {
    Expr::Variable { name }
}

fn member(service_name: Symbol, member_name: Symbol) -> Expr {
    Expr::MemberAccess {
        service_name,
        member_name,
    }
}

fn sum(expr1: Expr, expr2: Expr) -> Expr {
    Expr::Binop {
        op: BinOp::Add,
        expr1: Box::new(expr1),
        expr2: Box::new(expr2),
    }
}

fn var(name: Symbol, val: Expr) -> Decl {
    Decl::VarDecl {
        name,
        ty: None,
        val,
    }
}

fn def(name: Symbol, val: Expr) -> Decl {
    Decl::DefDecl {
        name,
        ty: None,
        val,
        is_pub: true,
    }
}

fn assign(name: Symbol, expr: Expr) -> ActionStmt {
    ActionStmt::Assign { name, expr }
}

fn state(manager: &Manager, service: Symbol, member: Symbol) -> &VarState {
    manager
        .services
        .get(&service)
        .unwrap()
        .vars
        .get(&member)
        .unwrap()
}

fn set_lock(manager: &mut Manager, service: Symbol, member: Symbol, lock: VarLock) {
    manager
        .services
        .get_mut(&service)
        .unwrap()
        .vars
        .get_mut(&member)
        .unwrap()
        .lock = lock;
}

fn txn(timestamp: u128) -> TxnId {
    TxnId {
        timestamp,
        node_id: 1,
        iteration: 0,
    }
}

/// A service foo with x = 0
fn manager_with_x() -> TestContext {
    let mut tc = TestContext::new();
    let decls = vec![var(tc.x, number(0))];
    tc.manager.create_service(tc.foo, decls).unwrap();
    tc
}

/// A service s1 with x = 0
fn manager_with_s1_x() -> TestContext {
    let mut tc = TestContext::new();
    let decls = vec![var(tc.x, number(0))];
    tc.manager.create_service(tc.s1, decls).unwrap();
    tc
}

/// s1 { var x = 1; pub def y = x + 1; }
fn manager_with_s1() -> TestContext {
    let mut tc = TestContext::new();
    let decls = vec![
        var(tc.x, number(1)),
        def(tc.y, sum(name(tc.x), number(1))),
    ];
    tc.manager.create_service(tc.s1, decls).unwrap();
    tc
}

fn assert_unlocked(manager: &Manager, service: Symbol, member: Symbol) {
    assert!(matches!(
        state(manager, service, member).lock,
        VarLock::Unlocked
    ));
}

// the (service, member) symbols that are referenced via MemberAccess, and
// nothing for a purely local expression
#[test]
fn test_cross_service_deps_extraction() {
    let tc = TestContext::new();
    // z = s1.y + 2  ->  {(s1, y)}
    let z_expr = sum(member(tc.s1, tc.y), number(2));
    assert_eq!(z_expr.cross_service_deps(), vec![(tc.s1, tc.y)]);
    // y = x + 1  ->  {} (no cross-service references)
    let y_expr = sum(name(tc.x), number(1));
    assert!(y_expr.cross_service_deps().is_empty());
}

// a def in s2 that reads s1.y updates eagerly when s1.x changes
#[test]
fn test_cross_service_def_updates_eagerly() {
    let mut tc = manager_with_s1();
    let z = tc.manager.interner.insert("z");

    // service s2 { pub def z = s1.y + 2; }
    let s2_decls = vec![def(z, sum(member(tc.s1, tc.y), number(2)))];
    tc.manager.create_service(tc.s2, s2_decls).unwrap();

    // initial z = (1 + 1) + 2 = 4
    assert_eq!(state(&tc.manager, tc.s2, z).value, Value::Int { val: 4 });

    // s2.z is registered as a listener on s1.y
    let on_y = tc
        .manager
        .services
        .get(&tc.s1)
        .unwrap()
        .listeners
        .get(&tc.y)
        .cloned()
        .unwrap_or_default();
    assert!(
        on_y.iter().any(|(_, d)| *d == z),
        "s2.z should be registered as a listener on s1.y"
    );

    // s1.x = 4  ->  s1.y = 5  ->  s2.z = 7, eagerly via the cascade
    tc.manager
        .assign(tc.s1, tc.x, Value::Int { val: 4 }, &mut None)
        .unwrap();

    assert_eq!(
        state(&tc.manager, tc.s2, z).value,
        Value::Int { val: 7 },
        "s2.z should update eagerly through the cross-service listener cascade"
    );
}

// handle_update caches a pushed remote value and recomputes the dependent def
// from the cache, not from a fresh lookup of the local value
#[test]
fn test_handle_update_recomputes_from_cache() {
    let mut tc = manager_with_s1();
    let z = tc.manager.interner.insert("z");

    let s2_decls = vec![def(z, sum(member(tc.s1, tc.y), number(2)))];
    tc.manager.create_service(tc.s2, s2_decls).unwrap();

    let s2_id = tc.manager.services.get(&tc.s2).unwrap().id.0.clone();
    let net_val = codec::encode_value(&Value::Int { val: 10 }, &tc.manager.interner).unwrap();

    // a remote Update says s1.y = 10
    let z_sym = tc.manager.interner.insert("z");
    tc.manager
        .handle_update(ServiceNetId(s2_id), z_sym, tc.s1, tc.y, net_val)
        .unwrap();

    // recomputed from the cached 10 (not s1's local y of 2): 10 + 2 = 12
    assert_eq!(state(&tc.manager, tc.s2, z).value, Value::Int { val: 12 });
}

// handle_request_updates registers a remote listener and records its reply
// address (the initial Update send is a no-op without a network)
#[test]
fn test_handle_request_updates_registers_listener() {
    let mut tc = manager_with_s1();

    let z = tc.manager.interner.insert("z");
    tc.manager.handle_request_updates(
        tc.s1,
        tc.y,
        ServiceNetId("remote-s2-id".to_string()),
        z,
        "/ip4/1.2.3.4/tcp/9".to_string(),
    );
    let on_y = tc
        .manager
        .services
        .get(&tc.s1)
        .unwrap()
        .listeners
        .get(&tc.y)
        .cloned()
        .unwrap_or_default();
    assert!(
        on_y.iter().any(|(id, d)| id.0 == "remote-s2-id" && *d == z),
        "remote s2.z should be registered as a listener on s1.y"
    );
    assert_eq!(
        tc.manager
            .listener_addrs
            .get(&ServiceNetId("remote-s2-id".to_string()))
            .map(|a| a.as_str()),
        Some("/ip4/1.2.3.4/tcp/9")
    );
}

#[test]
fn test_create_service_with_var() {
    let mut tc = TestContext::new();
    let decls = vec![var(tc.x, number(1))];
    tc.manager.create_service(tc.foo, decls).unwrap();
    let result = tc.read(tc.x, tc.foo).unwrap();
    assert_eq!(result, Value::Int { val: 1 });
}

#[test]
fn test_create_service_with_def() {
    let mut tc = TestContext::new();
    let decls = vec![
        var(tc.x, number(2)),
        def(tc.f, sum(name(tc.x), number(3))),
    ];
    tc.manager.create_service(tc.foo, decls).unwrap();
    let result = tc.read(tc.f, tc.foo).unwrap();
    assert_eq!(result, Value::Int { val: 5 });
}

#[test]
fn test_lookup_missing_var_returns_error() {
    let mut tc = TestContext::new();
    tc.manager.create_service(tc.foo, vec![]).unwrap();
    let result = tc.read(tc.nonexistent, tc.foo);
    assert!(result.is_err());
}

#[test]
fn test_def_updates_after_var_change() {
    let mut tc = TestContext::new();
    let decls = vec![
        var(tc.x, number(1)),
        def(tc.f, sum(name(tc.x), number(10))),
    ];
    tc.manager.create_service(tc.foo, decls).unwrap();

    // f should be 11 initially
    let result = tc.read(tc.f, tc.foo).unwrap();
    assert_eq!(result, Value::Int { val: 11 });

    // update x to 5, f should become 15
    tc.manager
        .assign(tc.foo, tc.x, Value::Int { val: 5 }, &mut None)
        .unwrap();
    let result = tc.read(tc.f, tc.foo).unwrap();
    assert_eq!(result, Value::Int { val: 15 });
}

#[test]
fn test_txn_read_then_write_upgrades_lock() {
    // `x = x + 1` reads `x` (read lock) then writes `x` (must upgrade
    // to write lock)
    let mut tc = manager_with_x();
    let stmts = vec![assign(tc.x, sum(name(tc.x), number(1)))];
    tc.manager.execute_action(tc.foo, &stmts).unwrap();
    let result = tc.read(tc.x, tc.foo).unwrap();
    assert_eq!(result, Value::Int { val: 1 });
}

#[test]
fn test_txn_locks_released_between_transactions() {
    // Locks must be released after a transaction, so a second
    // transaction can acquire them. Running `x = x + 1` twice
    // should yield `x == 2`
    let mut tc = manager_with_x();
    let stmts = vec![assign(tc.x, sum(name(tc.x), number(1)))];
    tc.manager.execute_action(tc.foo, &stmts).unwrap();
    tc.manager.execute_action(tc.foo, &stmts).unwrap();
    let result = tc.read(tc.x, tc.foo).unwrap();
    assert_eq!(result, Value::Int { val: 2 });
}

#[test]
fn test_txn_var_unlocked_after_commit() {
    // After a transaction completes, the variable's lock should
    // be `Unlocked`
    let mut tc = manager_with_x();
    let stmts = vec![assign(tc.x, number(42))];
    tc.manager.execute_action(tc.foo, &stmts).unwrap();
    assert_unlocked(&tc.manager, tc.foo, tc.x);
}

#[test]
fn test_txn_successful_write_updates_value_and_latest_write_txn() {
    // A successful transaction commits its buffered write and records
    // the transaction as the latest writer for that variable
    let mut tc = manager_with_x();
    let stmts = vec![assign(tc.x, number(42))];

    tc.manager.execute_action(tc.foo, &stmts).unwrap();

    let x = state(&tc.manager, tc.foo, tc.x);
    assert_eq!(x.value, Value::Int { val: 42 });
    assert!(x.latest_write_txn.is_some());
}

#[test]
fn test_txn_nested_do_reuses_transaction() {
    // A nested `do` (an action invoking another action) must reuse
    // the same transaction, not start a fresh one. The inner write
    // to `x` should commit and all locks should be released afterward
    let mut tc = manager_with_x();
    // outer action: `do` (action { `x` = `x` + 1 })
    let inner = Expr::Action(vec![assign(tc.x, sum(name(tc.x), number(1)))]);
    let stmts = vec![ActionStmt::Do(inner)];
    tc.manager.execute_action(tc.foo, &stmts).unwrap();

    // inner write took effect
    let result = tc.read(tc.x, tc.foo).unwrap();
    // and the lock was released
    assert_eq!(result, Value::Int { val: 1 });
    assert_unlocked(&tc.manager, tc.foo, tc.x);
}

#[test]
fn test_txn_failed_transaction_leaves_no_partial_writes() {
    // Here the first statement writes `x`, the second fails
    // (asserting `false`), so `x` must stay unchanged
    let mut tc = manager_with_x();
    let stmts = vec![
        assign(tc.x, number(99)),
        ActionStmt::Assert(boolean(false), "false".to_string()),
    ];
    let result = tc.manager.execute_action(tc.foo, &stmts);
    assert!(result.is_err());
    // `x` must remain 0: the buffered write to 99 was never committed
    let x = tc.read(tc.x, tc.foo).unwrap();
    // and the lock was released
    assert_eq!(x, Value::Int { val: 0 });
    assert_unlocked(&tc.manager, tc.foo, tc.x);
}

#[test]
fn test_txn_failed_transaction_preserves_previous_latest_write_txn() {
    // A failed transaction must not update either committed state
    // field: the value and latest writer should remain from the last
    // successful commit
    let mut tc = manager_with_x();
    let successful_write = vec![assign(tc.x, number(1))];
    tc.manager.execute_action(tc.foo, &successful_write).unwrap();
    let previous_txn = state(&tc.manager, tc.foo, tc.x).latest_write_txn.clone();
    assert!(previous_txn.is_some());

    let failing_write = vec![
        assign(tc.x, number(99)),
        ActionStmt::Assert(boolean(false), "false".to_string()),
    ];

    let result = tc.manager.execute_action(tc.foo, &failing_write);

    assert!(result.is_err());
    let x = state(&tc.manager, tc.foo, tc.x);
    assert_eq!(x.value, Value::Int { val: 1 });
    assert_eq!(x.latest_write_txn, previous_txn);
    assert_unlocked(&tc.manager, tc.foo, tc.x);
}

#[test]
fn test_txn_read_lock_released_after_failure() {
    // If a transaction fails after a read, its read lock must still
    // be released
    let mut tc = manager_with_x();
    let last_txn = state(&tc.manager, tc.foo, tc.x).latest_write_txn.clone();
    let stmts = vec![ActionStmt::Assert(name(tc.x), "x".to_string())];

    let result = tc.manager.execute_action(tc.foo, &stmts);

    assert!(result.is_err());
    let x = state(&tc.manager, tc.foo, tc.x);
    assert_eq!(x.value, Value::Int { val: 0 });
    assert_eq!(x.latest_write_txn, last_txn);
    assert_unlocked(&tc.manager, tc.foo, tc.x);
}

#[test]
fn test_txn_cross_service_composition() {
    // A transaction beginning in `s1` composes an action defined in
    // `s2`. Both services' writes must commit under the one transaction,
    // and the `(service_net_id, var)` keying must keep them distinct
    let mut tc = TestContext::new();
    // s2 owns `w` and an action that bumps it
    let bump = Expr::Action(vec![assign(tc.w, sum(name(tc.w), number(5)))]);
    let s2_decls = vec![var(tc.w, number(10)), def(tc.bump, bump)];
    tc.manager.create_service(tc.s2, s2_decls).unwrap();
    // s1 owns `x`
    let s1_decls = vec![var(tc.x, number(0))];
    tc.manager.create_service(tc.s1, s1_decls).unwrap();

    // Transaction on `s1`: `x` = `x` + 1; `do` `s2.bump`
    let stmts = vec![
        assign(tc.x, sum(name(tc.x), number(1))),
        ActionStmt::Do(member(tc.s2, tc.bump)),
    ];
    tc.manager.execute_action(tc.s1, &stmts).unwrap();

    // Both services' writes committed
    assert_eq!(tc.read(tc.x, tc.s1).unwrap(), Value::Int { val: 1 });
    assert_eq!(tc.read(tc.w, tc.s2).unwrap(), Value::Int { val: 15 });
    // Locks released on both services
    assert_unlocked(&tc.manager, tc.s1, tc.x);
    assert_unlocked(&tc.manager, tc.s2, tc.w);
}

#[test]
fn test_wait_die_younger_dies_at_acquire() {
    // Wait-die: a younger transaction contending for a lock held by
    // an older transaction dies (abort) rather than acquiring it
    let mut tc = manager_with_s1_x();
    let older = txn(1);
    set_lock(&mut tc.manager, tc.s1, tc.x, VarLock::WriteLocked(older));
    let younger = txn(u128::MAX);
    let result = tc.manager.acquire_write_lock(tc.s1, tc.x, &younger);
    assert!(matches!(result, Err(EvalError::WaitDieAbort(_))));
}

#[test]
fn test_wait_die_older_takes_wait_path() {
    // Wait-die: an older transaction contending for a lock held by
    // a younger transaction takes the wait path, surfaced as
    // `WaitOn` carrying the contended `(service, var)` so the owner
    // can park the request
    let mut tc = manager_with_s1_x();
    let younger = txn(u128::MAX);
    set_lock(&mut tc.manager, tc.s1, tc.x, VarLock::WriteLocked(younger));
    let older = txn(1);
    let result = tc.manager.acquire_write_lock(tc.s1, tc.x, &older);
    assert!(matches!(result, Err(EvalError::WaitOn(_, _))));
    assert_eq!(result, Err(EvalError::WaitOn(tc.s1, tc.x)));
}

#[test]
fn test_wait_die_action_dies_and_retries() {
    let mut tc = manager_with_s1_x();
    let older = txn(1);
    set_lock(&mut tc.manager, tc.s1, tc.x, VarLock::WriteLocked(older));
    let stmts = vec![assign(tc.x, sum(name(tc.x), number(1)))];
    let result = tc.manager.execute_action(tc.s1, &stmts);
    assert!(matches!(result, Err(EvalError::WaitDieAbort(_))));
    assert!(matches!(
        state(&tc.manager, tc.s1, tc.x).lock,
        VarLock::WriteLocked(_)
    ));
}

#[test]
fn test_wait_die_participant_preserves_partial_txn() {
    // Wait-die: a participant action that conflicts mid-execution
    // parks by preserving its partial transaction (locks already
    // taken stay held) in `pending_txns`, so a later re-dispatch
    // can resume rather than restart
    let mut tc = TestContext::new();
    let decls = vec![var(tc.y, number(0)), var(tc.x, number(0))];
    tc.manager.create_service(tc.s1, decls).unwrap();
    // A younger transaction holds a write lock on `x`
    let younger = txn(u128::MAX);
    set_lock(&mut tc.manager, tc.s1, tc.x, VarLock::WriteLocked(younger));
    let older = txn(1);
    // Older transaction: write `y` (acquires `y`), then touch `x`
    // (conflict, waits)
    let stmts = vec![
        assign(tc.y, number(5)),
        assign(tc.x, sum(name(tc.x), number(1))),
    ];
    let result = tc
        .manager
        .execute_action_participant(tc.s1, &stmts, &vec![], older);
    // Parked: returns `WaitOn`, and the partial transaction is preserved
    assert!(matches!(result, Err(EvalError::WaitOn(_, _))));
    assert!(tc.manager.pending_txns.contains_key(&older));
    // The lock it already took on `y` is still held (not released on park)
    assert!(matches!(
        state(&tc.manager, tc.s1, tc.y).lock,
        VarLock::WriteLocked(_)
    ));
}

#[test]
fn test_wait_queue_oldest_first_and_purge() {
    // Wait-die: parked requests on a variable are served oldest-first
    // when the lock frees, and a transaction's waiters are purged
    // when it aborts
    let mut tc = manager_with_s1_x();
    let s1 = tc.s1;
    let make = |rid: u64, tid: TxnId| ParkedRequest::Action {
        request_id: rid,
        reply_to: String::new(),
        service: s1,
        stmts: vec![],
        env: vec![],
        tid,
    };
    let old = txn(1);
    let mid = txn(5);
    tc.manager.park_request(tc.s1, tc.x, make(1, mid));
    tc.manager.park_request(tc.s1, tc.x, make(2, old));
    // Freeing `x` yields the oldest waiter first; the other stays parked
    let freed = vec![(tc.manager.service_net_id_for_name(tc.s1), tc.x)];
    let ready = tc.manager.take_ready_waiters(&freed);
    assert_eq!(ready.len(), 1);
    assert!(ready[0].tid() == &old);
    // The remaining `mid` waiter is purged when its transaction aborts
    let removed = tc.manager.purge_parked_txn(&mid);
    assert_eq!(removed.len(), 1);
    assert!(tc.manager.wait_queue.is_empty());
}

#[test]
fn test_wait_die_parked_request_resumes_after_release() {
    // Wait-die end to end (single node, no network): an older
    // transaction parks on a variable held by a younger one; when
    // the younger aborts and frees the lock, the parked request is
    // taken oldest-first and its re-run resumes from the preserved
    // transaction and now succeeds
    let mut tc = manager_with_s1_x();

    // A younger transaction holds a write lock on `x`, prepared in
    // `pending_txns`
    let younger = txn(u128::MAX);
    set_lock(&mut tc.manager, tc.s1, tc.x, VarLock::WriteLocked(younger));
    let mut younger_txn = Transaction::new(younger);
    younger_txn
        .locked
        .push((tc.manager.service_net_id_for_name(tc.s1), tc.x));
    tc.manager.pending_txns.insert(younger, younger_txn);

    let older = txn(1);
    // Older transaction: `x` = `x` + 1 conflicts -> `WaitOn` -> park it
    let stmts = vec![assign(tc.x, sum(name(tc.x), number(1)))];
    let r1 = tc
        .manager
        .execute_action_participant(tc.s1, &stmts, &vec![], older);
    assert!(matches!(r1, Err(EvalError::WaitOn(_, _))));
    tc.manager.park_request(
        tc.s1,
        tc.x,
        ParkedRequest::Action {
            request_id: 1,
            reply_to: String::new(),
            service: tc.s1,
            stmts: stmts.dup(),
            env: vec![],
            tid: older,
        },
    );

    // The younger holder aborts, freeing `x`
    let freed = tc.manager.abort_participant(&younger).unwrap();
    assert_unlocked(&tc.manager, tc.s1, tc.x);

    // Wake: take the oldest waiter and re-run it; it should now succeed
    let ready = tc.manager.take_ready_waiters(&freed);
    assert_eq!(ready.len(), 1);
    if let ParkedRequest::Action {
        service,
        stmts,
        env,
        tid,
        ..
    } = &ready[0]
    {
        let r2 = tc
            .manager
            .execute_action_participant(*service, stmts, env, *tid);
        assert!(r2.is_ok());
    } else {
        panic!("expected an Action waiter");
    }

    // The older transaction now holds `x`'s write lock and is prepared
    assert!(matches!(
        state(&tc.manager, tc.s1, tc.x).lock,
        VarLock::WriteLocked(_)
    ));
    assert!(tc.manager.pending_txns.contains_key(&older));
}

#[test]
fn test_create_service_uses_single_transaction() {
    let mut tc = TestContext::new();
    let decls = vec![
        var(tc.x, number(1)),
        var(tc.y, number(2)),
        def(tc.f, sum(name(tc.x), name(tc.y))),
    ];
    tc.manager.create_service(tc.foo, decls).unwrap();

    let foo = tc.manager.services.get(&tc.foo).unwrap();
    let tid = foo.vars.get(&tc.x).unwrap().latest_write_txn.clone();
    assert!(
        tid.is_some(),
        "init writes must record a writer txn from create_service"
    );
    // every var/def initialized by the same transaction
    assert_eq!(foo.vars.get(&tc.y).unwrap().latest_write_txn, tid);
    assert_eq!(foo.vars.get(&tc.f).unwrap().latest_write_txn, tid);
}

#[test]
fn test_create_service_rolls_back_on_partial_failure() {
    let mut tc = TestContext::new();
    let decls = vec![
        var(tc.x, number(1)),
        // adding a bool and number should be a type error
        var(tc.y, sum(boolean(true), number(1))),
    ];
    let result = tc.manager.create_service(tc.foo, decls);
    assert!(result.is_err());
    assert!(
        tc.manager.services.is_empty(),
        "no services should've been created"
    );
}

#[test]
fn test_create_service_read_conflicts_under_one_txn() {
    let mut tc = TestContext::new();
    let decls = vec![var(tc.x, number(7))];
    tc.manager.create_service(tc.s1, decls).unwrap();

    // another in-flight transaction holds a write lock on s1.x
    let ext = tc.manager.next_txn_id();
    assert!(tc
        .manager
        .services
        .get_mut(&tc.s1)
        .unwrap()
        .vars
        .get_mut(&tc.x)
        .unwrap()
        .lock
        .try_write(&ext));

    // s2's init reads s1.x; under a real transaction this must fail to read-lock.
    // since s2 is younger, it should die instead of waiting
    let decls = vec![def(tc.f, member(tc.s1, tc.x))];
    let result = tc.manager.create_service(tc.s2, decls);

    assert!(
        matches!(result, Err(EvalError::WaitDieAbort(_))),
        "init read must respect the lock"
    );
    assert!(
        !tc.manager.services.contains_key(&tc.s2),
        "failed init rolls back"
    );
    // the foreign lock is untouched
    assert!(matches!(
        state(&tc.manager, tc.s1, tc.x).lock,
        VarLock::WriteLocked(ref t) if *t == ext
    ));
}

/// Each definition is kept as it is read: from its creation on, after an
/// assignment, and after an action that writes several variables.
#[test]
fn definitions_are_kept_as_they_are_read() {
    let mut manager = Manager::default();
    let s1 = manager.interner.insert("s1");
    let s2 = manager.interner.insert("s2");
    let x = manager.interner.insert("x");
    let w = manager.interner.insert("w");
    let y = manager.interner.insert("y");
    let z = manager.interner.insert("z");
    // y reads x; z reads both y and w, over two services
    manager
        .create_service(
            s1,
            vec![
                var(x, number(1)),
                var(w, number(10)),
                def(y, sum(name(x), name(x))),
            ],
        )
        .unwrap();
    manager
        .create_service(s2, vec![def(z, sum(member(s1, y), member(s1, w)))])
        .unwrap();

    let check = |manager: &mut Manager, expected_y: i32, expected_z: i32| {
        for (service, member, expected) in [(s1, y, expected_y), (s2, z, expected_z)] {
            let kept = state(manager, service, member).value.clone();
            assert_eq!(kept, Value::Int { val: expected });
            let read = manager.lookup(member, service, &mut None).unwrap();
            assert_eq!(read, kept);
        }
    };
    check(&mut manager, 2, 12);

    manager
        .assign(s1, x, Value::Int { val: 3 }, &mut None)
        .unwrap();
    check(&mut manager, 6, 16);

    let stmts = vec![assign(x, number(5)), assign(w, number(20))];
    manager.execute_action(s1, &stmts).unwrap();
    check(&mut manager, 10, 30);
}

/// A member of a service that does not exist is no missing variable.
#[test]
fn lookup_tells_a_missing_service_from_a_missing_variable() {
    let mut tc = manager_with_x();
    assert_eq!(
        tc.read(tc.x, tc.s1),
        Err(EvalError::ServiceNotFound("Service 's1' not found".to_string()))
    );
    assert_eq!(
        tc.read(tc.nonexistent, tc.foo),
        Err(EvalError::VarNotFound(
            "Variable 'nonexistent' not found in service 'foo'".to_string()
        ))
    );
    assert_eq!(tc.read(tc.x, tc.foo), Ok(Value::Int { val: 0 }));
}

/// An action that fails after it wrote leaves variables and definitions as they
/// were.
#[test]
fn failed_action_leaves_definitions_alone() {
    let mut tc = manager_with_s1();
    let stmts = vec![
        assign(tc.x, number(7)),
        ActionStmt::Assert(boolean(false), "false".to_string()),
    ];
    assert!(tc.manager.execute_action(tc.s1, &stmts).is_err());
    assert_eq!(
        state(&tc.manager, tc.s1, tc.x).value,
        Value::Int { val: 1 }
    );
    assert_eq!(
        state(&tc.manager, tc.s1, tc.y).value,
        Value::Int { val: 2 }
    );

    // without the failing statement both change
    let stmts = vec![assign(tc.x, number(7))];
    tc.manager.execute_action(tc.s1, &stmts).unwrap();
    assert_eq!(
        state(&tc.manager, tc.s1, tc.y).value,
        Value::Int { val: 8 }
    );
}
