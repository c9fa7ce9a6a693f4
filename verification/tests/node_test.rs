use meerkat::net::ast::NetValue;
use meerkat::net::messages::{MeerkatMessage, NetworkEvent};
use meerkat::net::types::Address;
use meerkat::node::client::{client_step, watch_message, ClientStep};
use meerkat::node::repl::{
    check_watches, exec_stmt, find_import, import_missing, import_service, imported_all,
    imported_one, LineStep, ReplInput, ReplLine, ReplStep, Watch,
};
use meerkat::node::server::{
    handle_message, keepalive, register_remotes, remote_url_map, serve_next, service_urls,
};
use meerkat::node::Halt;
use meerkat::runtime::ast::{Stmt, Value};
use meerkat::runtime::interner::{Interner, Symbol};
use meerkat::runtime::interpreter::evaluator::EvalError;
use meerkat::runtime::manager::serve::extends_deadline;
use meerkat::runtime::manager::{Incoming, Manager, Port};
use meerkat::runtime::parser::parse_string;
use meerkat::runtime::table::{Plain, Table};
use meerkat::runtime::txn::{TxnId, VarLock};

const ADDR: &str = "/ip4/127.0.0.1/tcp/9000/p2p/peer";

/// A node that listens and runs a program
fn node(addr: &str, program: &str) -> Manager {
    let mut m = Manager::default();
    m.advance_clock(1000);
    m.network = Some(Port {
        peer_id: "peer".to_string(),
        local_addrs: vec![],
        sent: vec![],
        inbox: vec![],
    });
    m.set_local_address(addr.to_string());
    let stmts = parse_string(program, &mut m.interner).unwrap();
    for stmt in &stmts {
        client_step(&mut m, stmt, false, &Table::new()).unwrap();
    }
    m
}

fn counter() -> Manager {
    node(
        ADDR,
        "service s { var x = 1; pub def y = x + 1; pub def inc = action { x = x + 1; }; }",
    )
}

fn sent(m: &mut Manager) -> Vec<(String, MeerkatMessage)> {
    let port = m.network.as_mut().unwrap();
    std::mem::take(&mut port.sent)
        .into_iter()
        .map(|(a, msg)| (a.0, msg))
        .collect()
}

fn deliver(m: &mut Manager, msg: MeerkatMessage) {
    m.network
        .as_mut()
        .unwrap()
        .inbox
        .push(Incoming::Event(NetworkEvent::MessageReceived {
            peer: "other".to_string(),
            msg,
        }));
}

fn txn(timestamp: u128) -> TxnId {
    TxnId {
        timestamp,
        node_id: 9,
        iteration: 0,
    }
}

fn lookup(request_id: u64, member: &str, txn_id: Option<TxnId>) -> MeerkatMessage {
    MeerkatMessage::LookupRequest {
        request_id,
        service: "s".to_string(),
        member: member.to_string(),
        reply_to: "back".to_string(),
        txn_id,
    }
}

/// The statements of an action, in wire form
fn wire_stmts(text: &str) -> Vec<meerkat::net::ast::NetActionStmt> {
    let mut interner = Interner::new();
    parse_string(text, &mut interner)
        .unwrap()
        .into_iter()
        .map(|s| match s {
            Stmt::ActionStmt(a) => {
                meerkat::net::codec::encode_action_stmt(&a, &interner).unwrap()
            }
            other => panic!("unexpected {:?}", other),
        })
        .collect()
}

fn action(request_id: u64, text: &str, txn_id: Option<TxnId>) -> MeerkatMessage {
    MeerkatMessage::ActionRequest {
        request_id,
        service: "s".to_string(),
        stmts: wire_stmts(text),
        env: vec![],
        reply_to: "back".to_string(),
        txn_id,
    }
}

fn value(m: &mut Manager, service: &str, member: &str) -> Value {
    let s = m.interner.insert(service);
    let v = m.interner.insert(member);
    m.lookup(v, s, &mut None).unwrap()
}

fn names(texts: &[&str]) -> Vec<String> {
    texts.iter().map(|s| s.to_string()).collect()
}

/// A plain read is answered with the value, and a bad one with the reason
#[test]
fn lookup_is_answered() {
    let mut m = counter();
    deliver(&mut m, lookup(5, "y", None));
    serve_next(&mut m).unwrap();
    assert_eq!(
        sent(&mut m),
        vec![(
            "back".to_string(),
            MeerkatMessage::LookupResponse {
                request_id: 5,
                value: NetValue::Int { val: 2 }
            }
        )]
    );
    deliver(&mut m, lookup(6, "nothing", None));
    serve_next(&mut m).unwrap();
    match sent(&mut m).remove(0).1 {
        MeerkatMessage::LookupError { request_id, error } => {
            assert_eq!(request_id, 6);
            assert!(error.starts_with("Variable not found: "));
        }
        other => panic!("unexpected {:?}", other),
    }
    // nothing more comes in, and nothing happens
    serve_next(&mut m).unwrap();
    assert!(sent(&mut m).is_empty());
}

/// An action outside any transaction is committed at once
#[test]
fn action_is_answered() {
    let mut m = counter();
    handle_message(&mut m, "p".to_string(), action(1, "x = x + 5;", None)).unwrap();
    assert_eq!(
        sent(&mut m),
        vec![(
            "back".to_string(),
            MeerkatMessage::ActionResponse {
                request_id: 1,
                success: true,
                error: None
            }
        )]
    );
    assert_eq!(value(&mut m, "s", "y"), Value::Int { val: 7 });
    handle_message(&mut m, "p".to_string(), action(2, "assert (false);", None)).unwrap();
    match sent(&mut m).remove(0).1 {
        MeerkatMessage::ActionResponse {
            success: false,
            error: Some(e),
            ..
        } => assert_eq!(e, "Assertion failed: false"),
        other => panic!("unexpected {:?}", other),
    }
}

/// What is too long for the wire is refused before anything runs
#[test]
fn oversized_action_is_refused() {
    let mut m = counter();
    let msg = MeerkatMessage::ActionRequest {
        request_id: 3,
        service: "s".to_string(),
        stmts: wire_stmts("x = 9;"),
        env: vec![(
            "k".to_string(),
            NetValue::String {
                val: "a".repeat(5000),
            },
        )],
        reply_to: "back".to_string(),
        txn_id: None,
    };
    handle_message(&mut m, "p".to_string(), msg).unwrap();
    match sent(&mut m).remove(0).1 {
        MeerkatMessage::ActionResponse {
            request_id: 3,
            success: false,
            error: Some(e),
        } => assert!(e.contains("string literal exceeds maximum length")),
        other => panic!("unexpected {:?}", other),
    }
    assert_eq!(value(&mut m, "s", "x"), Value::Int { val: 1 });
}

/// What a transaction of another node writes shows once it commits
#[test]
fn participant_commits() {
    let mut m = counter();
    let t = txn(5000);
    handle_message(&mut m, "p".to_string(), action(1, "x = 10;", Some(t))).unwrap();
    let x = m.interner.insert("x");
    let s = m.interner.insert("s");
    assert_eq!(
        m.services.get(&s).unwrap().vars.get(&x).unwrap().value,
        Value::Int { val: 1 }
    );
    assert!(matches!(
        m.services.get(&s).unwrap().vars.get(&x).unwrap().lock,
        VarLock::WriteLocked(w) if w == t
    ));
    sent(&mut m);
    handle_message(
        &mut m,
        "p".to_string(),
        MeerkatMessage::Commit {
            request_id: 2,
            txn_id: t,
            reply_to: "back".to_string(),
        },
    )
    .unwrap();
    assert_eq!(
        sent(&mut m),
        vec![(
            "back".to_string(),
            MeerkatMessage::CommitResponse {
                request_id: 2,
                success: true,
                error: None
            }
        )]
    );
    assert_eq!(value(&mut m, "s", "y"), Value::Int { val: 11 });
    assert!(matches!(
        m.services.get(&s).unwrap().vars.get(&x).unwrap().lock,
        VarLock::Unlocked
    ));
}

/// What a transaction of another node writes is gone once it is given up
#[test]
fn participant_aborts() {
    let mut m = counter();
    let t = txn(5000);
    handle_message(&mut m, "p".to_string(), action(1, "x = 10;", Some(t))).unwrap();
    sent(&mut m);
    handle_message(
        &mut m,
        "p".to_string(),
        MeerkatMessage::Abort {
            request_id: 2,
            txn_id: t,
            reply_to: "back".to_string(),
        },
    )
    .unwrap();
    assert_eq!(
        sent(&mut m),
        vec![(
            "back".to_string(),
            MeerkatMessage::AbortResponse { request_id: 2 }
        )]
    );
    assert_eq!(value(&mut m, "s", "x"), Value::Int { val: 1 });
}

/// An older transaction waits, is told so, and is answered when the lock frees
#[test]
fn waiting_request_is_answered_later() {
    let mut m = counter();
    let younger = txn(5000);
    let older = txn(10);
    handle_message(&mut m, "p".to_string(), action(1, "x = 10;", Some(younger))).unwrap();
    sent(&mut m);
    handle_message(&mut m, "q".to_string(), lookup(2, "x", Some(older))).unwrap();
    assert!(sent(&mut m).is_empty());
    keepalive(&mut m);
    assert_eq!(
        sent(&mut m),
        vec![(
            "back".to_string(),
            MeerkatMessage::WaitParked { request_id: 2 }
        )]
    );
    handle_message(
        &mut m,
        "p".to_string(),
        MeerkatMessage::Commit {
            request_id: 3,
            txn_id: younger,
            reply_to: "there".to_string(),
        },
    )
    .unwrap();
    let out = sent(&mut m);
    assert_eq!(out.len(), 2);
    assert_eq!(out[0].0, "there");
    assert_eq!(
        out[1],
        (
            "back".to_string(),
            MeerkatMessage::LookupResponse {
                request_id: 2,
                value: NetValue::Int { val: 10 }
            }
        )
    );
    keepalive(&mut m);
    assert!(sent(&mut m).is_empty());
}

/// Of the requests that one commit wakes the oldest is answered first
#[test]
fn woken_requests_are_answered_by_age() {
    for (first, second) in [("x", "w"), ("w", "x")] {
        let mut m = node(ADDR, "service s { var x = 1; var w = 2; }");
        let holder = txn(5000);
        let stmts = "x = 10; w = 20;";
        handle_message(&mut m, "p".to_string(), action(1, stmts, Some(holder))).unwrap();
        handle_message(&mut m, "q".to_string(), lookup(2, first, Some(txn(50)))).unwrap();
        handle_message(&mut m, "q".to_string(), lookup(3, second, Some(txn(40)))).unwrap();
        sent(&mut m);
        handle_message(
            &mut m,
            "p".to_string(),
            MeerkatMessage::Commit {
                request_id: 4,
                txn_id: holder,
                reply_to: "there".to_string(),
            },
        )
        .unwrap();
        let answered: Vec<u64> = sent(&mut m)
            .iter()
            .filter_map(|(_, msg)| match msg {
                MeerkatMessage::LookupResponse { request_id, .. } => Some(*request_id),
                _ => None,
            })
            .collect();
        assert_eq!(answered, vec![3, 2]);
    }
}

/// A younger transaction is refused where an older one holds the lock
#[test]
fn younger_request_is_refused() {
    let mut m = counter();
    handle_message(&mut m, "p".to_string(), action(1, "x = 10;", Some(txn(10)))).unwrap();
    sent(&mut m);
    handle_message(&mut m, "q".to_string(), lookup(2, "x", Some(txn(5000)))).unwrap();
    match sent(&mut m).remove(0).1 {
        MeerkatMessage::LookupError { error, .. } => {
            assert!(error.starts_with("Wait-die abort: "))
        }
        other => panic!("unexpected {:?}", other),
    }
}

/// A listener gets the value at once and after each change
#[test]
fn listener_is_told() {
    let mut m = counter();
    handle_message(
        &mut m,
        "p".to_string(),
        MeerkatMessage::RequestUpdates {
            request_id: 1,
            service: "s".to_string(),
            member: "y".to_string(),
            listener_service: "there/t".to_string(),
            listener_def: "z".to_string(),
            reply_to: "there".to_string(),
        },
    )
    .unwrap();
    handle_message(&mut m, "p".to_string(), action(1, "x = 4;", None)).unwrap();
    let values: Vec<NetValue> = sent(&mut m)
        .into_iter()
        .filter_map(|(to, msg)| match msg {
            MeerkatMessage::Update { value, .. } => {
                assert_eq!(to, "there");
                Some(value)
            }
            _ => None,
        })
        .collect();
    assert_eq!(
        values,
        vec![NetValue::Int { val: 2 }, NetValue::Int { val: 5 }]
    );
}

/// A run that needs a reply is suspended, and goes on when it is run again
#[test]
fn remote_read_is_replayed() {
    let mut owner = counter();
    let mut m = node("/ip4/127.0.0.1/tcp/1/p2p/me", "");
    let urls = remote_url_map(&vec![format!("{}/s", ADDR)]);
    register_remotes(&mut m, &urls);
    let stmts = parse_string("service t { pub def z = s.y * 10; }", &mut m.interner).unwrap();

    let mut told: Vec<(String, MeerkatMessage)> = Vec::new();
    let mut runs = 0;
    let step = loop {
        runs += 1;
        let mut before = m.clone();
        match client_step(&mut m, &stmts[0], false, &urls) {
            Err(Halt::Suspended) => {
                // the owner answers what is new, and the run is taken up from
                // where it began
                let out = sent(&mut m);
                assert!(out.starts_with(&told));
                before.network.as_mut().unwrap().inbox.push(Incoming::Resume);
                m = before;
                for (to, msg) in out.iter().skip(told.len()) {
                    assert_eq!(to, ADDR);
                    deliver(&mut owner, msg.clone());
                    serve_next(&mut owner).unwrap();
                    for (to, msg) in sent(&mut owner) {
                        assert_eq!(to, "/ip4/127.0.0.1/tcp/1/p2p/me");
                        deliver(&mut m, msg);
                    }
                }
                told = out;
            }
            other => break other,
        }
    };
    assert!(runs > 1);
    assert_eq!(
        step,
        Ok(ClientStep::Say("Service 't' loaded".to_string()))
    );
    m.drop_marks();
    let t = m.interner.insert("t");
    let z = m.interner.insert("z");
    assert_eq!(
        m.services.get(&t).unwrap().vars.get(&z).unwrap().value,
        Value::Int { val: 20 }
    );
    // the owner will tell of changes
    assert!(sent(&mut m)
        .iter()
        .any(|(_, msg)| matches!(msg, MeerkatMessage::RequestUpdates { .. })));
}

/// What each statement of a program comes to
#[test]
fn statements_of_a_program() {
    let mut m = node(ADDR, "");
    let urls = remote_url_map(&names(&["/ip4/1.2.3.4/tcp/5/p2p/q/far"]));
    let stmts = parse_string(
        "service s { var x = 1; } @test(s) { x = 2; } @test(s) { assert (x == 1); } import far; import near; let z = 1;",
        &mut m.interner,
    )
    .unwrap();
    assert_eq!(
        service_urls(ADDR, &stmts, &m.interner),
        vec![format!("{}/s", ADDR)]
    );
    let mut steps = vec![];
    for stmt in &stmts {
        steps.push(client_step(&mut m, stmt, false, &urls));
    }
    let say = |s: &str| Ok(ClientStep::Say(s.to_string()));
    assert_eq!(steps[0], say("Service 's' loaded"));
    assert_eq!(steps[1], say("@test(s) passed"));
    assert_eq!(
        steps[2],
        Err(Halt::Failed(
            "Test failed in 's': Assertion failed: x == 1".to_string()
        ))
    );
    assert_eq!(
        steps[3],
        say("Remote service 'far' registered at /ip4/1.2.3.4/tcp/5/p2p/q/far")
    );
    assert!(matches!(&steps[4], Ok(ClientStep::Import { .. })));
    assert_eq!(steps[5], Ok(ClientStep::Nothing));
    // a node that only watches runs no tests
    assert_eq!(
        client_step(&mut m, &stmts[2], true, &urls),
        Ok(ClientStep::Nothing)
    );
    assert_eq!(value(&mut m, "s", "x"), Value::Int { val: 2 });
    // a service that cannot be set up is not there
    let bad = parse_string("service b { var x = 1 + true; }", &mut m.interner).unwrap();
    match client_step(&mut m, &bad[0], false, &urls) {
        Err(Halt::Failed(e)) => assert!(e.starts_with("Service error: Type error: ")),
        other => panic!("unexpected {:?}", other),
    }
}

/// A watcher tells of the new value and of what it leads to
#[test]
fn updates_are_told() {
    let mut m = node(ADDR, "service far { var y = 1; } service t { pub def z = far.y + 1; }");
    let id = format!("{}/t", ADDR);
    let lines = watch_message(
        &mut m,
        MeerkatMessage::Update {
            listener_service: id,
            listener_def: "z".to_string(),
            source_service: "far".to_string(),
            member: "y".to_string(),
            value: NetValue::Int { val: 41 },
        },
    )
    .unwrap();
    assert_eq!(
        lines,
        names(&[
            "[update] far.y = Int { val: 41 }",
            "          -> z = Int { val: 42 }"
        ])
    );
    let lines = watch_message(
        &mut m,
        MeerkatMessage::Ping {
            content: String::new(),
        },
    )
    .unwrap();
    assert!(lines.is_empty());
}

struct Session {
    manager: Manager,
    env: Vec<(Symbol, Value)>,
    watches: Vec<Watch>,
    urls: Table<String, String>,
}

impl Session {
    fn new() -> Self {
        Session {
            manager: node(ADDR, ""),
            env: vec![],
            watches: vec![],
            urls: Table::new(),
        }
    }

    fn run(&mut self, text: &str) -> Vec<Result<ReplStep, Halt>> {
        let stmts = parse_string(text, &mut self.manager.interner).unwrap();
        stmts
            .into_iter()
            .map(|s| {
                exec_stmt(
                    s,
                    &mut self.manager,
                    &mut self.env,
                    &mut self.watches,
                    &self.urls,
                )
            })
            .collect()
    }

    fn look(&mut self) -> Vec<ReplLine> {
        check_watches(&mut self.watches, &mut self.manager, &self.env).unwrap()
    }
}

fn done(s: &str) -> Result<ReplStep, Halt> {
    Ok(ReplStep::Done(Some(s.to_string())))
}

#[test]
fn session_statements() {
    let mut s = Session::new();
    assert_eq!(
        s.run("service s { var x = 1; }"),
        vec![done("Service 's' loaded.")]
    );
    assert_eq!(
        s.run("@test(s) { x = 5; }"),
        vec![done("@test(s) passed.")]
    );
    assert_eq!(
        s.run("let a = s.x; a + 1;"),
        vec![Ok(ReplStep::Done(None)), done("6")]
    );
    assert_eq!(
        s.run("@test(s) { assert (x == 6); }"),
        vec![Err(Halt::Failed(
            "@test(s): Assertion failed: x == 6".to_string()
        ))]
    );
    assert_eq!(
        s.run("1 / 0;"),
        vec![Err(Halt::Failed(
            "Runtime error: Division by zero".to_string()
        ))]
    );
    assert_eq!(
        s.run("import far from \"/ip4/9.9.9.9/tcp/1/p2p/z/far\";"),
        vec![done(
            "Remote service 'far' registered at /ip4/9.9.9.9/tcp/1/p2p/z/far."
        )]
    );
    match s.run("import near from \"n.mkt\";").remove(0) {
        Ok(ReplStep::Import {
            path,
            explicit_path,
            ..
        }) => {
            assert_eq!(path, "n.mkt");
            assert!(explicit_path);
        }
        other => panic!("unexpected {:?}", other),
    }
}

/// A change is told once, with the value before
#[test]
fn watches_are_followed() {
    let mut s = Session::new();
    s.run("service s { var x = 1; }");
    let told = s.run("watch s.x;").remove(0);
    let label = s.watches[0].label.clone();
    assert_eq!(
        told,
        done(&format!("Watching: {} (current value: 1)", label))
    );
    assert!(s.look().is_empty());
    s.run("@test(s) { x = 2; }");
    assert_eq!(
        s.look(),
        vec![ReplLine::Out(format!("[watch] {}: 1 => 2", label))]
    );
    assert!(s.look().is_empty());
    let told = s.run("watch nobody.y;").remove(0);
    let label = s.watches[1].label.clone();
    assert_eq!(
        told,
        done(&format!("Watching: {} (not yet available)", label))
    );
    match &s.look()[0] {
        ReplLine::Complaint(e) => assert!(e.starts_with(&format!("[watch] {}: error: ", label))),
        other => panic!("unexpected {:?}", other),
    }
    s.run("service nobody { var y = 7; }");
    assert_eq!(
        s.look(),
        vec![ReplLine::Out(format!("[watch] {} = 7", label))]
    );
}

#[test]
fn imports_of_a_session() {
    let mut s = Session::new();
    let file = parse_string(
        "service a { var x = 1; } let q = 1; service b { var y = 2; }",
        &mut s.manager.interner,
    )
    .unwrap();
    let a = s.manager.interner.insert("a");
    let b = s.manager.interner.insert("b");
    let c = s.manager.interner.insert("c");
    assert_eq!(find_import(&file, b), Some(2));
    assert_eq!(find_import(&file, c), None);
    assert_eq!(
        import_missing(&s.manager, c, "f.mkt"),
        "Service 'c' not found in 'f.mkt'"
    );
    let mut loaded = vec![];
    for stmt in &file {
        if let Some(name) = import_service(&mut s.manager, stmt).unwrap() {
            loaded.push(name);
        }
    }
    assert_eq!(imported_all(&loaded), "Imported service(s): a, b.");
    assert_eq!(imported_all(&vec![]), "Imported service(s): .");
    assert_eq!(imported_one(&s.manager, a), "Imported service: a.");
    assert_eq!(value(&mut s.manager, "b", "y"), Value::Int { val: 2 });
}

#[test]
fn lines_become_statements() {
    let mut interner = Interner::new();
    let mut input = ReplInput::new();
    assert_eq!(input.prompt(), "meerkat> ");
    assert!(matches!(input.enter("  ", &mut interner), LineStep::Blank));
    assert!(matches!(
        input.enter("service s {", &mut interner),
        LineStep::More
    ));
    assert_eq!(input.prompt(), "       > ");
    match input.enter("var x = 1; }  ", &mut interner) {
        LineStep::Run { history, stmts } => {
            assert_eq!(history, "service s {\nvar x = 1; }");
            assert_eq!(stmts.len(), 1);
        }
        other => panic!("unexpected {:?}", other),
    }
    assert_eq!(input, ReplInput::new());
    match input.enter(") ;", &mut interner) {
        LineStep::Bad { history, complaint } => {
            assert_eq!(history, ") ;");
            assert_eq!(complaint, "Parse error: unexpected token at 0");
        }
        other => panic!("unexpected {:?}", other),
    }
    input.enter("let x", &mut interner);
    input.clear();
    assert_eq!(input.prompt(), "meerkat> ");
}

/// Copies are equal and independent
#[test]
fn copies() {
    let v = vec![Address::new("/a"), Address::new("/b")];
    assert!(v.dup().same(&v));
    let e: Result<Value, EvalError> = Err(EvalError::Suspended);
    assert_eq!(e.unwrap_err().to_text(), "Suspended");
}

/// However much is in the inbox, all of it is handled: the limit is on how deep
/// steps nest.
#[test]
fn more_events_than_nested_steps_are_handled() {
    let mut m = counter();
    m.depth_limit = 5;
    for i in 0..20u64 {
        deliver(
            &mut m,
            MeerkatMessage::RequestUpdates {
                request_id: i,
                service: "s".to_string(),
                member: "x".to_string(),
                listener_service: format!("there/{}", i),
                listener_def: "z".to_string(),
                reply_to: "there".to_string(),
            },
        );
    }
    assert_eq!(m.dispatch_network_events(), Ok(()));
    assert!(m.network.as_ref().unwrap().inbox.is_empty());
    let told = sent(&mut m)
        .iter()
        .filter(|(_, msg)| matches!(msg, MeerkatMessage::Update { .. }))
        .count();
    assert_eq!(told, 20);
}

/// Only the word that the awaited request is queued gives it more time
#[test]
fn deadline_is_extended_for_the_awaited_request() {
    let parked = |request_id| NetworkEvent::MessageReceived {
        peer: "other".to_string(),
        msg: MeerkatMessage::WaitParked { request_id },
    };
    assert!(extends_deadline(&parked(4), 4));
    assert!(!extends_deadline(&parked(5), 4));
    assert!(!extends_deadline(
        &NetworkEvent::MessageReceived {
            peer: "other".to_string(),
            msg: lookup(4, "y", None),
        },
        4
    ));
    assert!(!extends_deadline(
        &NetworkEvent::PeerConnected {
            peer: "other".to_string()
        },
        4
    ));
}

/// A run that is held up tells which request it waits for
#[test]
fn held_up_run_tells_the_awaited_request() {
    let mut m = node("/ip4/127.0.0.1/tcp/1/p2p/me", "");
    assert_eq!(m.awaited_request(), None);
    let urls = remote_url_map(&vec![format!("{}/s", ADDR)]);
    register_remotes(&mut m, &urls);
    let s = m.interner.insert("s");
    let y = m.interner.insert("y");
    assert_eq!(m.lookup(y, s, &mut None), Err(EvalError::Suspended));
    let asked = match &sent(&mut m)[0].1 {
        MeerkatMessage::LookupRequest { request_id, .. } => *request_id,
        _ => panic!("no lookup was sent"),
    };
    assert_eq!(m.awaited_request(), Some(asked));
}

/// A chain of changes that is longer than steps may nest is passed on to its end
#[test]
fn more_changes_than_nested_steps_are_passed_on() {
    let mut program = "service s { var x = 0; pub def d0 = x + 1;".to_string();
    for i in 1..30 {
        program.push_str(&format!(" pub def d{} = d{} + 1;", i, i - 1));
    }
    program.push_str(" }");
    let mut m = node(ADDR, &program);
    let s = m.interner.insert("s");
    let x = m.interner.insert("x");
    let last = m.interner.insert("d29");
    m.depth_limit = 6;
    assert_eq!(m.assign(s, x, Value::Int { val: 100 }, &mut None), Ok(()));
    assert_eq!(
        m.services.get(&s).unwrap().vars.get(&last).unwrap().value,
        Value::Int { val: 130 }
    );
}

/// Definitions that call a function where it is written, or one that reads no
/// member, follow what they read
#[test]
fn definitions_with_calls_are_followed() {
    let mut m = node(
        ADDR,
        "service s {
            var x = 1;
            var k = 10;
            var twice = fn(a) => a + a;
            def inc = fn(a) => a + 1;
            pub def y = (fn(a) => a + x)(k);
            pub def z = inc(y);
            pub def t = twice(inc(x));
            pub def c = (fn(f) => f(k))(fn(b) => b * 2);
            def thrice = fn(x) => x * 3;
            pub def v = thrice(k);
        }",
    );
    let s = m.interner.insert("s");
    let expect = |m: &mut Manager, values: [i32; 5]| {
        for (name, val) in ["y", "z", "t", "c", "v"].into_iter().zip(values) {
            let d = m.interner.insert(name);
            let kept = m.services.get(&s).unwrap().vars.get(&d).unwrap().value.clone();
            assert_eq!(kept, Value::Int { val });
            assert_eq!(m.lookup(d, s, &mut None), Ok(kept));
        }
    };
    expect(&mut m, [11, 12, 4, 20, 30]);
    let x = m.interner.insert("x");
    let k = m.interner.insert("k");
    m.assign(s, x, Value::Int { val: 5 }, &mut None).unwrap();
    expect(&mut m, [15, 16, 12, 20, 30]);
    m.assign(s, k, Value::Int { val: 7 }, &mut None).unwrap();
    expect(&mut m, [12, 13, 12, 14, 21]);
}
