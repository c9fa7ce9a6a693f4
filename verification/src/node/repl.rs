//! The interactive session: lines become statements, statements are executed,
//! and watched expressions are followed.

use crate::net::types::Address;
use crate::node;
use crate::node::{create_from, halt, name_service, Halt, HaltM};
use crate::runtime::ast::display;
use crate::runtime::ast::model::{ActionStmtM, ExprM, StmtM, ValueM};
use crate::runtime::ast::{Expr, Stmt, Value};
use crate::runtime::interner::{Interner, Symbol};
use crate::runtime::interpreter::evaluator;
use crate::runtime::interpreter::evaluator::{eval_at, ErrM, EvalError};
use crate::runtime::interpreter::executor::{execute, ExecuteEffect};
use crate::runtime::interpreter::laws as interpreter_laws;
use crate::runtime::manager::model;
use crate::runtime::manager::model::{EnvM, ManagerM, World};
use crate::runtime::manager::semantics;
use crate::runtime::manager::semantics::EffectM;
use crate::runtime::manager::transactions;
use crate::runtime::manager::Manager;
use crate::runtime::parser;
use crate::runtime::parser::texts;
use crate::runtime::parser::{parse_repl, ReplM, ReplParseResult};
use crate::runtime::table;
use crate::runtime::table::{Plain, Table};
use crate::runtime::text;
use crate::runtime::tt::TypeM;
use crate::runtime::txn::Transaction;
use vstd::prelude::*;

verus! {

/// An expression that is followed: how it was written, and its value when it
/// was last looked at.
#[derive(Debug, Clone)]
pub struct Watch {
    pub label: String,
    pub expr: Expr,
    pub last: Option<Value>,
}

/// The model of a [`Watch`].
pub struct WatchM {
    pub label: Seq<char>,
    pub expr: ExprM<Symbol>,
    pub last: Option<ValueM<Symbol>>,
}

impl DeepView for Watch {
    type V = WatchM;

    open spec fn deep_view(&self) -> WatchM {
        WatchM {
            label: self.label@,
            expr: self.expr.deep_view(),
            last: self.last.deep_view(),
        }
    }
}

/// A line for the user: a result, or a complaint.
#[derive(Debug, Clone, PartialEq)]
pub enum ReplLine {
    Out(String),
    Complaint(String),
}

/// The model of a [`ReplLine`].
pub enum LineM {
    Out(Seq<char>),
    Complaint(Seq<char>),
}

impl DeepView for ReplLine {
    type V = LineM;

    open spec fn deep_view(&self) -> LineM {
        match *self {
            ReplLine::Out(s) => LineM::Out(s@),
            ReplLine::Complaint(s) => LineM::Complaint(s@),
        }
    }
}

/// The value of an expression in the session.
pub open spec fn valued(e: ExprM<Symbol>, env: EnvM, m: ManagerM) -> (
    Result<ValueM<Symbol>, ErrM>,
    ManagerM,
) {
    let (r, w) = semantics::eval(
        m.depth_limit as nat,
        e,
        env,
        Symbol { id: 0 },
        World { m, t: None },
    );
    (r, w.m)
}

/// What is said of a watch whose expression has a new value.
pub open spec fn change_text(w: WatchM, v: ValueM<Symbol>) -> Seq<char> {
    match w.last {
        None => "[watch] "@ + w.label + " = "@ + display::show_value(v),
        Some(before) => "[watch] "@ + w.label + ": "@ + display::show_value(before) + " => "@
            + display::show_value(v),
    }
}

/// A watch after its expression has been looked at, and what is said of it.
pub open spec fn looked(w: WatchM, r: Result<ValueM<Symbol>, ErrM>) -> (WatchM, Option<LineM>) {
    match r {
        Ok(v) => if w.last == Some(v) {
            (w, None)
        } else {
            (WatchM { last: Some(v), ..w }, Some(LineM::Out(change_text(w, v))))
        },
        Err(e) => (
            w,
            Some(
                LineM::Complaint(
                    "[watch] "@ + w.label + ": error: "@ + evaluator::error_text(e),
                ),
            ),
        ),
    }
}

/// The watches from place `i` on are looked at, in order, after what was said
/// so far.
pub open spec fn checked(
    ws: Seq<WatchM>,
    i: nat,
    env: EnvM,
    said: Seq<LineM>,
    m: ManagerM,
) -> (Result<Seq<LineM>, ErrM>, Seq<WatchM>, ManagerM)
    decreases ws.len() - i,
{
    if i >= ws.len() {
        (Ok(said), ws, m)
    } else {
        let (r, m1) = valued(ws[i as int].expr, env, m);
        if r == Err::<ValueM<Symbol>, ErrM>(ErrM::Suspended) {
            (Err(ErrM::Suspended), ws, m1)
        } else {
            let (w, line) = looked(ws[i as int], r);
            let more = match line {
                Some(l) => said.push(l),
                None => said,
            };
            checked(ws.update(i as int, w), i + 1, env, more, m1)
        }
    }
}

/// Evaluates an expression in the session.
fn value_of(expr: &Expr, manager: &mut Manager, env: &Vec<(Symbol, Value)>) -> (r: Result<
    Value,
    EvalError,
>)
    ensures
        (evaluator::res(r), final(manager).deep_view()) == valued(
            expr.deep_view(),
            env.deep_view(),
            old(manager).deep_view(),
        ),
{
    let fuel = manager.depth_limit;
    let mut none: Option<Transaction> = None;
    eval_at(fuel, expr, env, manager, Symbol::empty(), &mut none)
}

/// Looks at a watch again.
fn look(w: &mut Watch, r: Result<Value, EvalError>) -> (line: Option<ReplLine>)
    ensures
        (final(w).deep_view(), line.deep_view()) == looked(
            old(w).deep_view(),
            evaluator::res(r),
        ),
{
    match r {
        Ok(v) => {
            let text = match &w.last {
                None => text::cat5("[watch] ", w.label.as_str(), " = ", v.to_text().as_str(), ""),
                Some(before) => {
                    if before.same(&v) {
                        return None;
                    }
                    let mut s = text::cat3("[watch] ", w.label.as_str(), ": ");
                    s.append(before.to_text().as_str());
                    s.append(" => ");
                    s.append(v.to_text().as_str());
                    s
                },
            };
            proof {
                reveal_strlit("");
                let was = old(w).deep_view();
                assert(text@ =~= change_text(was, v.deep_view()));
            }
            w.last = Some(v);
            Some(ReplLine::Out(text))
        },
        Err(e) => {
            let mut s = text::cat3("[watch] ", w.label.as_str(), ": error: ");
            s.append(e.to_text().as_str());
            Some(ReplLine::Complaint(s))
        },
    }
}

/// Looks at all watches again, and gives what has changed.
pub fn check_watches(watches: &mut Vec<Watch>, manager: &mut Manager, env: &Vec<(Symbol, Value)>) -> (r:
    Result<Vec<ReplLine>, EvalError>)
    ensures
        (evaluator::res(r), final(watches).deep_view(), final(manager).deep_view()) == checked(
            old(watches).deep_view(),
            0,
            env.deep_view(),
            seq![],
            old(manager).deep_view(),
        ),
{
    let mut said: Vec<ReplLine> = Vec::new();
    assert(said.deep_view() =~= Seq::<LineM>::empty());
    let ghost e = env.deep_view();
    let ghost whole = checked(watches.deep_view(), 0, e, seq![], manager.deep_view());
    let mut i: usize = 0;
    while i < watches.len()
        invariant
            i <= watches@.len(),
            e == env.deep_view(),
            whole == checked(
                watches.deep_view(),
                i as nat,
                e,
                said.deep_view(),
                manager.deep_view(),
            ),
            whole == checked(
                old(watches).deep_view(),
                0,
                e,
                seq![],
                old(manager).deep_view(),
            ),
        decreases watches@.len() - i,
    {
        let ghost ws = watches.deep_view();
        assert(ws[i as int] == watches@[i as int].deep_view());
        let outcome = value_of(&watches[i].expr, manager, env);
        match &outcome {
            Err(EvalError::Suspended) => {
                return Err(EvalError::Suspended);
            },
            _ => {},
        }
        let ghost said0 = said.deep_view();
        let ghost res = evaluator::res(outcome);
        match look(&mut watches[i], outcome) {
            Some(l) => {
                let ghost l1 = l.deep_view();
                said.push(l);
                assert(said.deep_view() =~= said0.push(l1));
            },
            None => {},
        }
        proof {
            assert(watches.deep_view() =~= ws.update(i as int, looked(ws[i as int], res).0));
        }
        i = i + 1;
    }
    Ok(said)
}

/// What a statement comes to.
#[derive(Debug, Clone, PartialEq)]
pub enum ReplStep {
    /// It is done; there may be something to tell.
    Done(Option<String>),
    /// Services of a file are to be imported.
    Import { path: String, service_name: Symbol, explicit_path: bool },
}

/// The model of a [`ReplStep`].
pub enum ReplStepM {
    Done(Option<Seq<char>>),
    Import { path: Seq<char>, service_name: Symbol, explicit_path: bool },
}

impl DeepView for ReplStep {
    type V = ReplStepM;

    open spec fn deep_view(&self) -> ReplStepM {
        match *self {
            ReplStep::Done(s) => ReplStepM::Done(s.deep_view()),
            ReplStep::Import { path, service_name, explicit_path } => ReplStepM::Import {
                path: path@,
                service_name,
                explicit_path,
            },
        }
    }
}

/// The state of a session.
pub struct SessionM {
    pub m: ManagerM,
    pub env: EnvM,
    pub watches: Seq<WatchM>,
}

/// The address under which a service to import is reached, if it is remote:
/// the path itself where it is an address, or what was given for its name.
pub open spec fn import_address(
    path: Seq<char>,
    name: Seq<char>,
    urls: Seq<(Seq<char>, Seq<char>)>,
) -> Option<Seq<char>> {
    if text::begins_with(path, "/ip4"@) {
        Some(path)
    } else {
        table::get(urls, name)
    }
}

/// The outcome of a statement with something to tell.
pub open spec fn told(s: Seq<char>) -> Result<ReplStepM, HaltM> {
    Ok(ReplStepM::Done(Some(s)))
}

/// Whether a statement may end as `out` and leave the session as `z`.
pub open spec fn repl_may(
    stmt: StmtM<Symbol>,
    urls: Seq<(Seq<char>, Seq<char>)>,
    s: SessionM,
    out: Result<ReplStepM, HaltM>,
    z: SessionM,
) -> bool {
    match stmt {
        StmtM::Service { name, decls } => z.env == s.env && z.watches == s.watches && (exists|
            r: Result<(), ErrM>,
        | #[trigger]
            node::creates(name, decls, s.m, r, z.m) && out == (match r {
                Ok(_) => told(node::naming_service(z.m, "Service '"@, name, "' loaded."@)),
                Err(e) => Err(
                    node::halted(node::naming_service(z.m, "Service '"@, name, "': "@), e),
                ),
            })),
        StmtM::Test { service_name, stmts } => {
            let (r, m1) = transactions::run_txn(
                s.m.depth_limit as nat,
                service_name,
                stmts,
                seq![],
                transactions::next_txn_id(s.m),
                transactions::ticked(s.m),
            );
            z == (SessionM { m: m1, ..s }) && out == (match r {
                Ok(_) => told(node::naming_service(m1, "@test("@, service_name, ") passed."@)),
                Err(e) => Err(
                    node::halted(node::naming_service(m1, "@test("@, service_name, "): "@), e),
                ),
            })
        },
        StmtM::Import { path, service_name, explicit_path } => match import_address(
            path,
            model::name(s.m, service_name),
            urls,
        ) {
            Some(address) => z == (SessionM {
                m: ManagerM {
                    remote_services: table::put(s.m.remote_services, service_name, address),
                    ..s.m
                },
                ..s
            }) && out == told(
                node::naming_service(s.m, "Remote service '"@, service_name, "' registered at "@)
                    + address + "."@,
            ),
            None => z == s && out == Ok::<ReplStepM, HaltM>(
                ReplStepM::Import { path, service_name, explicit_path },
            ),
        },
        StmtM::ActionStmt(a) => {
            let (r, w) = semantics::execute(
                s.m.depth_limit as nat,
                a,
                s.env,
                Symbol { id: 0 },
                World { m: s.m, t: None },
            );
            match r {
                Ok(EffectM::Binding(name, v)) => z == (SessionM {
                    m: w.m,
                    env: s.env.push((name, v)),
                    ..s
                }) && out == Ok::<ReplStepM, HaltM>(ReplStepM::Done(None)),
                Ok(EffectM::ExprValue(v)) => z == (SessionM { m: w.m, ..s }) && out == told(
                    display::show_value(v),
                ),
                Ok(EffectM::Nothing) => z == (SessionM { m: w.m, ..s }) && out == Ok::<
                    ReplStepM,
                    HaltM,
                >(ReplStepM::Done(None)),
                Err(e) => z == (SessionM { m: w.m, ..s }) && out == Err::<ReplStepM, HaltM>(
                    node::halted(Seq::empty(), e),
                ),
            }
        },
        StmtM::Watch { expr } => {
            let (r, m1) = valued(expr, s.env, s.m);
            let label = display::show_expr(expr);
            match r {
                Err(ErrM::Suspended) => z == (SessionM { m: m1, ..s }) && out == Err::<
                    ReplStepM,
                    HaltM,
                >(HaltM::Suspended),
                Ok(v) => z == (SessionM {
                    m: m1,
                    watches: s.watches.push(WatchM { label, expr, last: Some(v) }),
                    ..s
                }) && out == told(
                    "Watching: "@ + label + " (current value: "@ + display::show_value(v) + ")"@,
                ),
                Err(_) => z == (SessionM {
                    m: m1,
                    watches: s.watches.push(WatchM { label, expr, last: None }),
                    ..s
                }) && out == told("Watching: "@ + label + " (not yet available)"@),
            }
        },
        StmtM::Update { .. } => z == s && out == told("(not yet supported in REPL: Update)"@),
        StmtM::Connect { .. } => z == s && out == told("(not yet supported in REPL: Connect)"@),
    }
}

/// Begins to follow an expression.
fn start_watch(
    expr: Expr,
    manager: &mut Manager,
    env: &Vec<(Symbol, Value)>,
    watches: &mut Vec<Watch>,
) -> (r: Result<ReplStep, Halt>)
    ensures
        forall|urls: Seq<(Seq<char>, Seq<char>)>| #[trigger]
            repl_may(
                StmtM::Watch { expr: expr.deep_view() },
                urls,
                SessionM {
                    m: old(manager).deep_view(),
                    env: env.deep_view(),
                    watches: old(watches).deep_view(),
                },
                node::ended(r),
                SessionM {
                    m: final(manager).deep_view(),
                    env: env.deep_view(),
                    watches: final(watches).deep_view(),
                },
            ),
{
    let label = expr.to_text();
    let ghost before = watches.deep_view();
    let initial = match value_of(&expr, manager, env) {
        Err(EvalError::Suspended) => {
            return Err(Halt::Suspended);
        },
        Err(_) => None,
        Ok(v) => Some(v),
    };
    let line = match &initial {
        Some(v) => text::cat5(
            "Watching: ",
            label.as_str(),
            " (current value: ",
            v.to_text().as_str(),
            ")",
        ),
        None => text::cat3("Watching: ", label.as_str(), " (not yet available)"),
    };
    let w = Watch { label, expr, last: initial };
    let ghost w1 = w.deep_view();
    watches.push(w);
    assert(watches.deep_view() =~= before.push(w1));
    Ok(ReplStep::Done(Some(line)))
}

/// Registers a remote service, or asks for the file to import.
fn start_import(
    path: String,
    service_name: Symbol,
    explicit_path: bool,
    manager: &mut Manager,
    urls: &Table<String, String>,
) -> (r: Result<ReplStep, Halt>)
    ensures
        forall|env: EnvM, watches: Seq<WatchM>| #[trigger]
            repl_may(
                StmtM::Import { path: path@, service_name, explicit_path },
                urls.deep_view(),
                SessionM { m: old(manager).deep_view(), env, watches },
                node::ended(r),
                SessionM { m: final(manager).deep_view(), env, watches },
            ),
{
    let name = manager.interner.get(service_name);
    let address = if text::starts_with(path.as_str(), "/ip4") {
        Some(path.clone())
    } else {
        match urls.get(&name) {
            Some(a) => Some(a.clone()),
            None => None,
        }
    };
    match address {
        Some(a) => {
            let mut line = name_service(
                manager,
                "Remote service '",
                service_name,
                "' registered at ",
            );
            line.append(a.as_str());
            line.append(".");
            manager.remote_services.insert(service_name, Address(a));
            Ok(ReplStep::Done(Some(line)))
        },
        None => Ok(ReplStep::Import { path, service_name, explicit_path }),
    }
}

/// Executes a statement of the session.
pub fn exec_stmt(
    stmt: Stmt,
    manager: &mut Manager,
    repl_env: &mut Vec<(Symbol, Value)>,
    watches: &mut Vec<Watch>,
    urls: &Table<String, String>,
) -> (r: Result<ReplStep, Halt>)
    requires
        node::stmt_analyzable(stmt.deep_view()),
    ensures
        repl_may(
            stmt.deep_view(),
            urls.deep_view(),
            SessionM {
                m: old(manager).deep_view(),
                env: old(repl_env).deep_view(),
                watches: old(watches).deep_view(),
            },
            node::ended(r),
            SessionM {
                m: final(manager).deep_view(),
                env: final(repl_env).deep_view(),
                watches: final(watches).deep_view(),
            },
        ),
{
    match stmt {
        Stmt::Service { name, decls } => {
            match create_from(manager, name, &decls) {
                Ok(_) => Ok(
                    ReplStep::Done(Some(name_service(manager, "Service '", name, "' loaded."))),
                ),
                Err(e) => {
                    let before = name_service(manager, "Service '", name, "': ");
                    Err(halt(before.as_str(), &e))
                },
            }
        },
        Stmt::Test { service_name, stmts } => {
            match manager.execute_action(service_name, &stmts) {
                Ok(_) => Ok(
                    ReplStep::Done(Some(name_service(manager, "@test(", service_name, ") passed."))),
                ),
                Err(e) => {
                    let before = name_service(manager, "@test(", service_name, "): ");
                    Err(halt(before.as_str(), &e))
                },
            }
        },
        Stmt::Import { path, service_name, explicit_path } => start_import(
            path,
            service_name,
            explicit_path,
            manager,
            urls,
        ),
        Stmt::ActionStmt(a) => {
            let mut none: Option<Transaction> = None;
            let ghost env0 = repl_env.deep_view();
            match execute(&a, repl_env, manager, Symbol::empty(), &mut none) {
                Ok(ExecuteEffect::Binding(name, v)) => {
                    let ghost v1 = v.deep_view();
                    repl_env.push((name, v));
                    assert(repl_env.deep_view() =~= env0.push((name, v1)));
                    Ok(ReplStep::Done(None))
                },
                Ok(ExecuteEffect::ExprValue(v)) => Ok(ReplStep::Done(Some(v.to_text()))),
                Ok(ExecuteEffect::Nothing) => Ok(ReplStep::Done(None)),
                Err(e) => {
                    proof {
                        reveal_strlit("");
                        assert(""@ =~= Seq::<char>::empty());
                    }
                    Err(halt("", &e))
                },
            }
        },
        Stmt::Watch { expr } => start_watch(expr, manager, repl_env, watches),
        Stmt::Update { .. } => Ok(
            ReplStep::Done(Some("(not yet supported in REPL: Update)".to_owned())),
        ),
        Stmt::Connect { .. } => Ok(
            ReplStep::Done(Some("(not yet supported in REPL: Connect)".to_owned())),
        ),
    }
}

/// Whether a statement declares the service of the name.
pub open spec fn declares(stmt: StmtM<Symbol>, service_name: Symbol) -> bool {
    stmt matches StmtM::Service { name, .. } && name == service_name
}

/// The place of the first statement that declares the service of the name.
pub fn find_import(stmts: &Vec<Stmt>, service_name: Symbol) -> (r: Option<usize>)
    ensures
        match r {
            Some(i) => i < stmts.deep_view().len() && declares(
                stmts.deep_view()[i as int],
                service_name,
            ) && forall|j: int|
                0 <= j < i ==> !declares(#[trigger] stmts.deep_view()[j], service_name),
            None => forall|j: int|
                0 <= j < stmts.deep_view().len() ==> !declares(
                    #[trigger] stmts.deep_view()[j],
                    service_name,
                ),
        },
{
    let ghost t = stmts.deep_view();
    for i in 0..stmts.len()
        invariant
            t == stmts.deep_view(),
            forall|j: int| 0 <= j < i ==> !declares(#[trigger] t[j], service_name),
    {
        assert(t[i as int] == stmts@[i as int].deep_view());
        match &stmts[i] {
            Stmt::Service { name, .. } => {
                if *name == service_name {
                    return Some(i);
                }
            },
            _ => {},
        }
    }
    None
}

/// Whether importing a statement may end as `out` with the node as `z`: a
/// service is created, and its name given; other statements are passed over.
pub open spec fn import_may(
    stmt: StmtM<Symbol>,
    m: ManagerM,
    out: Result<Option<Seq<char>>, HaltM>,
    z: ManagerM,
) -> bool {
    match stmt {
        StmtM::Service { name, decls } => exists|r: Result<(), ErrM>| #[trigger]
            node::creates(name, decls, m, r, z) && out == (match r {
                Ok(_) => Ok::<Option<Seq<char>>, HaltM>(Some(model::name(z, name))),
                Err(e) => Err(
                    node::halted(node::naming_service(z, "Imported service '"@, name, "': "@), e),
                ),
            }),
        _ => out == Ok::<Option<Seq<char>>, HaltM>(None) && z == m,
    }
}

/// Creates the service that a statement of an imported file declares.
pub fn import_service(manager: &mut Manager, stmt: &Stmt) -> (r: Result<Option<String>, Halt>)
    requires
        node::stmt_analyzable(stmt.deep_view()),
    ensures
        import_may(
            stmt.deep_view(),
            old(manager).deep_view(),
            node::ended(r),
            final(manager).deep_view(),
        ),
{
    match stmt {
        Stmt::Service { name, decls } => {
            match create_from(manager, *name, decls) {
                Ok(_) => Ok(Some(manager.interner.get(*name))),
                Err(e) => {
                    let before = name_service(manager, "Imported service '", *name, "': ");
                    Err(halt(before.as_str(), &e))
                },
            }
        },
        _ => Ok(None),
    }
}

/// What is told of one service that was imported.
pub fn imported_one(manager: &Manager, service_name: Symbol) -> (r: String)
    ensures
        r@ == node::naming_service(
            manager.deep_view(),
            "Imported service: "@,
            service_name,
            "."@,
        ),
{
    name_service(manager, "Imported service: ", service_name, ".")
}

/// What is told where a file does not declare the service.
pub fn import_missing(manager: &Manager, service_name: Symbol, path: &str) -> (r: String)
    ensures
        r@ == node::naming_service(
            manager.deep_view(),
            "Service '"@,
            service_name,
            "' not found in '"@,
        ) + path@ + "'"@,
{
    let mut s = name_service(manager, "Service '", service_name, "' not found in '");
    s.append(path);
    s.append("'");
    s
}

/// The first `n` names, with commas between them.
pub open spec fn listed(names: Seq<Seq<char>>, n: nat) -> Seq<char>
    decreases n,
{
    if n == 0 {
        seq![]
    } else if n == 1 {
        names[0]
    } else {
        listed(names, (n - 1) as nat) + ", "@ + names[n - 1]
    }
}

/// What is told of all services of a file.
pub fn imported_all(names: &Vec<String>) -> (r: String)
    ensures
        r@ == "Imported service(s): "@ + listed(names.deep_view(), names.deep_view().len()) + "."@,
{
    let ghost t = names.deep_view();
    let mut s = String::new();
    assert(s@ =~= Seq::<char>::empty());
    for i in 0..names.len()
        invariant
            t == names.deep_view(),
            s@ == listed(t, i as nat),
    {
        assert(t[i as int] == names@[i as int]@);
        if i == 0 {
            s = names[i].clone();
        } else {
            s.append(", ");
            s.append(names[i].as_str());
        }
    }
    text::cat3("Imported service(s): ", s.as_str(), ".")
}

/// What the user has typed of a statement that is not complete yet.
#[derive(Debug, Clone, PartialEq)]
pub struct ReplInput {
    pub buffer: String,
    /// Whether the next line continues the statement.
    pub continuation: bool,
}

/// The model of a [`ReplInput`].
pub struct InputM {
    pub buffer: Seq<char>,
    pub continuation: bool,
}

impl DeepView for ReplInput {
    type V = InputM;

    open spec fn deep_view(&self) -> InputM {
        InputM { buffer: self.buffer@, continuation: self.continuation }
    }
}

/// What a line comes to.
#[derive(Debug)]
pub enum LineStep {
    /// Nothing was typed; only the watches are looked at.
    Blank,
    /// The statement goes on.
    More,
    /// The input makes no sense; it is remembered all the same.
    Bad { history: String, complaint: String },
    /// The statements are executed, and then the watches are looked at.
    Run { history: String, stmts: Vec<Stmt> },
}

/// The model of a [`LineStep`].
pub enum LineStepM {
    Blank,
    More,
    Bad { history: Seq<char>, complaint: Seq<char> },
    Run { history: Seq<char>, stmts: Seq<StmtM<Symbol>> },
}

impl DeepView for LineStep {
    type V = LineStepM;

    open spec fn deep_view(&self) -> LineStepM {
        match *self {
            LineStep::Blank => LineStepM::Blank,
            LineStep::More => LineStepM::More,
            LineStep::Bad { history, complaint } => LineStepM::Bad {
                history: history@,
                complaint: complaint@,
            },
            LineStep::Run { history, stmts } => LineStepM::Run {
                history: history@,
                stmts: stmts.deep_view(),
            },
        }
    }
}

/// Nothing has been typed.
pub open spec fn no_input() -> InputM {
    InputM { buffer: seq![], continuation: false }
}

/// What a further line comes to, the input then, and the names then.
pub open spec fn entered(input: InputM, line: Seq<char>, names: Seq<Seq<char>>) -> (
    LineStepM,
    InputM,
    Seq<Seq<char>>,
) {
    let buffer = input.buffer + line + "\n"@;
    if text::is_blank(buffer) {
        (LineStepM::Blank, no_input(), names)
    } else {
        let history = text::without_end(buffer);
        match parser::repl_parsed(buffer, names) {
            (ReplM::Incomplete, n1) => (
                LineStepM::More,
                InputM { buffer, continuation: true },
                n1,
            ),
            (ReplM::Error(e), n1) => (
                LineStepM::Bad { history, complaint: "Parse error: "@ + e },
                no_input(),
                n1,
            ),
            (ReplM::Complete(stmts), n1) => (LineStepM::Run { history, stmts }, no_input(), n1),
        }
    }
}

impl ReplInput {
    /// Nothing has been typed.
    pub fn new() -> (r: ReplInput)
        ensures
            r.deep_view() == no_input(),
    {
        let buffer = String::new();
        assert(buffer@ =~= Seq::<char>::empty());
        ReplInput { buffer, continuation: false }
    }

    /// What the user is prompted with.
    pub fn prompt(&self) -> (r: String)
        ensures
            r@ == (if self.deep_view().continuation {
                "       > "@
            } else {
                "meerkat> "@
            }),
    {
        if self.continuation {
            "       > ".to_owned()
        } else {
            "meerkat> ".to_owned()
        }
    }

    /// Forgets what was typed.
    pub fn clear(&mut self)
        ensures
            final(self).deep_view() == no_input(),
    {
        *self = ReplInput::new();
    }

    /// Takes a further line.
    pub fn enter(&mut self, line: &str, interner: &mut Interner) -> (r: LineStep)
        ensures
            (r.deep_view(), final(self).deep_view(), final(interner)@) == entered(
                old(self).deep_view(),
                line@,
                old(interner)@,
            ),
    {
        self.buffer.append(line);
        self.buffer.append("\n");
        if text::blank(self.buffer.as_str()) {
            self.clear();
            return LineStep::Blank;
        }
        let history = text::trim_white_end(self.buffer.as_str());
        match parse_repl(self.buffer.as_str(), interner) {
            ReplParseResult::Incomplete => {
                self.continuation = true;
                LineStep::More
            },
            ReplParseResult::Error(e) => {
                self.clear();
                LineStep::Bad { history, complaint: text::cat2("Parse error: ", e.as_str()) }
            },
            ReplParseResult::Complete(stmts) => {
                self.clear();
                LineStep::Run { history, stmts }
            },
        }
    }
}

/// Looking again at what has not changed says nothing: where every expression
/// still has the value it had, nothing is said and the watches stay.
pub proof fn law_unchanged_is_quiet(w: WatchM, v: ValueM<Symbol>)
    requires
        w.last == Some(v),
    ensures
        looked(w, Ok(v)) == (w, None::<LineM>),
{
}

/// After a watch was looked at, looking again while the value is the same says
/// nothing more.
pub proof fn law_change_is_told_once(w: WatchM, v: ValueM<Symbol>)
    ensures
        looked(looked(w, Ok(v)).0, Ok(v)) == (looked(w, Ok(v)).0, None::<LineM>),
{
}

/// Whatever a line comes to, input is kept only where the statement goes on.
pub proof fn law_input_is_kept_only_for_more(
    input: InputM,
    line: Seq<char>,
    names: Seq<Seq<char>>,
)
    ensures
        ({
            let (step, z, n1) = entered(input, line, names);
            z == (if step is More {
                InputM { buffer: input.buffer + line + "\n"@, continuation: true }
            } else {
                no_input()
            })
        }),
{
}

/// A change of a watched expression is told, and told as it is: something is said
/// just where the value is another one than before, it begins with what is
/// watched and ends with the value that it has now, and that value is remembered.
pub proof fn law_change_is_told(w: WatchM, v: ValueM<Symbol>)
    ensures
        ({
            let (z, line) = looked(w, Ok(v));
            &&& z == (WatchM { last: Some(v), ..w })
            &&& line is None <==> w.last == Some(v)
            &&& line matches Some(l) ==> (l matches LineM::Out(t) && (
            "[watch] "@ + w.label).is_prefix_of(t) && display::show_value(v).is_suffix_of(t))
        }),
{
    let t = change_text(w, v);
    let head = "[watch] "@ + w.label;
    let tail = display::show_value(v);
    assert(head.is_prefix_of(t)) by {
        match w.last {
            None => {
                assert(t =~= head + (" = "@ + tail));
            },
            Some(b) => {
                assert(t =~= head + (": "@ + display::show_value(b) + " => "@ + tail));
            },
        }
    }
    assert(tail.is_suffix_of(t)) by {
        match w.last {
            None => {
                assert(t =~= (head + " = "@) + tail);
            },
            Some(b) => {
                assert(t =~= (head + ": "@ + display::show_value(b) + " => "@) + tail);
            },
        }
        assert(t.subrange(t.len() - tail.len(), t.len() as int) =~= tail);
    }
    if w.last == Some(v) {
        assert(w == (WatchM { last: Some(v), ..w }));
    }
}

/// A watch whose expression fails stays as it was, and the failure is told.
pub proof fn law_failed_watch_stays(w: WatchM, e: ErrM)
    ensures
        looked(w, Err(e)).0 == w,
        looked(w, Err(e)).1 matches Some(LineM::Complaint(t)) && evaluator::error_text(
            e,
        ).is_suffix_of(t),
{
    let tail = evaluator::error_text(e);
    let t = "[watch] "@ + w.label + ": error: "@ + tail;
    assert(t.subrange(t.len() - tail.len(), t.len() as int) =~= tail);
}

/// An expression at the prompt prints its value: what is printed of a number, a
/// truth value or a string without quotes is an expression with that value.
pub proof fn law_value_is_printed(
    e: ExprM<Symbol>,
    urls: Seq<(Seq<char>, Seq<char>)>,
    s: SessionM,
    out: Result<ReplStepM, HaltM>,
    z: SessionM,
    v: ValueM<Symbol>,
)
    requires
        s.m.depth_limit > 0,
        repl_may(StmtM::ActionStmt(ActionStmtM::Expr(e)), urls, s, out, z),
        semantics::eval(
            (s.m.depth_limit - 1) as nat,
            e,
            s.env,
            Symbol { id: 0 },
            World { m: s.m, t: None },
        ).0 == Ok::<ValueM<Symbol>, ErrM>(v),
        v is Int || v is Bool || (v is String && !v->String_val.contains('"')),
    ensures
        out matches Ok(ReplStepM::Done(Some(t))) && texts::reads_as(t, v),
        z.env == s.env,
        z.watches == s.watches,
{
    let n = (s.m.depth_limit - 1) as nat;
    interpreter_laws::law_statement_gives_value(
        n,
        Symbol { id: 0 },
        None,
        e,
        s.env,
        Symbol { id: 0 },
        World { m: s.m, t: None },
    );
    texts::lemma_shown_reads(v);
}

/// A name that is bound at the prompt has its value in the lines behind it, and
/// the other names what they had.
pub proof fn law_let_stays(
    name: Symbol,
    ty: Option<TypeM>,
    e: ExprM<Symbol>,
    urls: Seq<(Seq<char>, Seq<char>)>,
    s: SessionM,
    out: Result<ReplStepM, HaltM>,
    z: SessionM,
    v: ValueM<Symbol>,
    other: Symbol,
)
    requires
        s.m.depth_limit > 0,
        repl_may(StmtM::ActionStmt(ActionStmtM::Let { name, ty, expr: e }), urls, s, out, z),
        semantics::eval(
            (s.m.depth_limit - 1) as nat,
            e,
            s.env,
            Symbol { id: 0 },
            World { m: s.m, t: None },
        ).0 == Ok::<ValueM<Symbol>, ErrM>(v),
    ensures
        out == Ok::<ReplStepM, HaltM>(ReplStepM::Done(None)),
        model::env_get(z.env, name) == Some(v),
        other != name ==> model::env_get(z.env, other) == model::env_get(s.env, other),
{
    let n = (s.m.depth_limit - 1) as nat;
    interpreter_laws::law_statement_gives_value(
        n,
        name,
        ty,
        e,
        s.env,
        Symbol { id: 0 },
        World { m: s.m, t: None },
    );
    interpreter_laws::law_innermost_binding_counts(s.env, name, v, other);
}

/// An expression that is watched is followed from then on, with the value that it
/// has, and that value is told.
pub proof fn law_watch_is_followed(
    e: ExprM<Symbol>,
    urls: Seq<(Seq<char>, Seq<char>)>,
    s: SessionM,
    out: Result<ReplStepM, HaltM>,
    z: SessionM,
)
    requires
        repl_may(StmtM::Watch { expr: e }, urls, s, out, z),
        out is Ok,
    ensures
        z.env == s.env,
        z.watches.len() == s.watches.len() + 1,
        z.watches.drop_last() == s.watches,
        z.watches.last().expr == e,
        z.watches.last().last == (match valued(e, s.env, s.m).0 {
            Ok(v) => Some(v),
            Err(_) => None,
        }),
{
    assert(z.watches.drop_last() =~= s.watches);
}

/// A test is reported as passed just where its action succeeded.
pub proof fn law_test_is_reported(
    service_name: Symbol,
    stmts: Seq<ActionStmtM<Symbol>>,
    urls: Seq<(Seq<char>, Seq<char>)>,
    s: SessionM,
    out: Result<ReplStepM, HaltM>,
    z: SessionM,
)
    requires
        repl_may(StmtM::Test { service_name, stmts }, urls, s, out, z),
    ensures
        out is Ok <==> transactions::run_txn(
            s.m.depth_limit as nat,
            service_name,
            stmts,
            seq![],
            transactions::next_txn_id(s.m),
            transactions::ticked(s.m),
        ).0 is Ok,
        z.env == s.env,
        z.watches == s.watches,
{
}

} // verus!
