//! Running a program: what a node does with each statement, and what it says
//! of changes that it watches.

use crate::net::codec;
use crate::net::messages::{MeerkatMessage, MessageM};
use crate::net::types::{Address, ServiceNetId};
use crate::net::wire;
use crate::node;
use crate::node::{create_from, halt, name_service, Halt, HaltM};
use crate::runtime::ast::debug;
use crate::runtime::ast::debug::value_debug;
use crate::runtime::ast::model::{ActionStmtM, StmtM};
use crate::runtime::ast::renaming;
use crate::runtime::ast::Stmt;
use crate::runtime::interner;
use crate::runtime::interner::Symbol;
use crate::runtime::interpreter::evaluator;
use crate::runtime::interpreter::evaluator::{ErrM, EvalError};
use crate::runtime::manager::model;
use crate::runtime::manager::model::ManagerM;
use crate::runtime::manager::semantics;
use crate::runtime::manager::transactions;
use crate::runtime::manager::Manager;
use crate::runtime::table;
use crate::runtime::table::{Plain, Table};
use crate::runtime::text;
use vstd::prelude::*;

verus! {

/// What a statement comes to.
#[derive(Debug, Clone, PartialEq)]
pub enum ClientStep {
    Nothing,
    /// The user is told.
    Say(String),
    /// The services of a file are to be imported.
    Import { path: String },
}

/// The model of a [`ClientStep`].
pub enum ClientStepM {
    Nothing,
    Say(Seq<char>),
    Import { path: Seq<char> },
}

impl DeepView for ClientStep {
    type V = ClientStepM;

    open spec fn deep_view(&self) -> ClientStepM {
        match *self {
            ClientStep::Nothing => ClientStepM::Nothing,
            ClientStep::Say(s) => ClientStepM::Say(s@),
            ClientStep::Import { path } => ClientStepM::Import { path: path@ },
        }
    }
}

/// Where a service comes from: the program itself, or a file that it imports.
#[derive(Debug, Clone, Copy, PartialEq, Eq, Structural)]
pub enum Origin {
    Program,
    Imported,
}

/// What is said of a service that is created.
pub open spec fn loaded(origin: Origin, name: Symbol, r: Result<(), ErrM>, m: ManagerM) -> Result<
    ClientStepM,
    HaltM,
> {
    match r {
        Ok(_) => Ok(
            ClientStepM::Say(
                match origin {
                    Origin::Program => node::naming_service(m, "Service '"@, name, "' loaded"@),
                    Origin::Imported => node::naming_service(m, "Imported service '"@, name, "'"@),
                },
            ),
        ),
        Err(e) => Err(
            node::halted(
                match origin {
                    Origin::Program => "Service error: "@,
                    Origin::Imported => "Import service error: "@,
                },
                e,
            ),
        ),
    }
}

/// Whether a service statement may end as `out` with the node as `z`; other
/// statements do nothing.
pub open spec fn loads(
    origin: Origin,
    stmt: StmtM<Symbol>,
    m: ManagerM,
    out: Result<ClientStepM, HaltM>,
    z: ManagerM,
) -> bool {
    match stmt {
        StmtM::Service { name, decls } => exists|r: Result<(), ErrM>| #[trigger]
            node::creates(name, decls, m, r, z) && out == loaded(origin, name, r, z),
        _ => out == Ok::<ClientStepM, HaltM>(ClientStepM::Nothing) && z == m,
    }
}

/// Creates the service that a statement declares, if it declares one.
pub fn load_service(manager: &mut Manager, stmt: &Stmt, origin: Origin) -> (r: Result<
    ClientStep,
    Halt,
>)
    requires
        node::stmt_analyzable(stmt.deep_view()),
    ensures
        loads(
            origin,
            stmt.deep_view(),
            old(manager).deep_view(),
            node::ended(r),
            final(manager).deep_view(),
        ),
{
    match stmt {
        Stmt::Service { name, decls } => {
            let made = create_from(manager, *name, decls);
            match made {
                Ok(_) => {
                    let line = match origin {
                        Origin::Program => name_service(manager, "Service '", *name, "' loaded"),
                        Origin::Imported => name_service(manager, "Imported service '", *name, "'"),
                    };
                    Ok(ClientStep::Say(line))
                },
                Err(e) => {
                    let before = match origin {
                        Origin::Program => "Service error: ",
                        Origin::Imported => "Import service error: ",
                    };
                    Err(halt(before, &e))
                },
            }
        },
        _ => Ok(ClientStep::Nothing),
    }
}

/// Whether a statement may end as `out` with the node as `z`. Tests are not run
/// where the node only watches.
pub open spec fn client_may(
    stmt: StmtM<Symbol>,
    watch: bool,
    urls: Seq<(Seq<char>, Seq<char>)>,
    m: ManagerM,
    out: Result<ClientStepM, HaltM>,
    z: ManagerM,
) -> bool {
    match stmt {
        StmtM::Service { .. } => loads(Origin::Program, stmt, m, out, z),
        StmtM::Test { service_name, stmts } => if watch {
            out == Ok::<ClientStepM, HaltM>(ClientStepM::Nothing) && z == m
        } else {
            let (r, m1) = transactions::run_txn(
                m.depth_limit as nat,
                service_name,
                stmts,
                seq![],
                transactions::next_txn_id(m),
                transactions::ticked(m),
            );
            z == m1 && out == (match r {
                Ok(_) => Ok::<ClientStepM, HaltM>(
                    ClientStepM::Say(node::naming_service(m1, "@test("@, service_name, ") passed"@)),
                ),
                Err(e) => Err(
                    node::halted(
                        node::naming_service(m1, "Test failed in '"@, service_name, "': "@),
                        e,
                    ),
                ),
            })
        },
        StmtM::Import { path, service_name, .. } => match table::get(
            urls,
            model::name(m, service_name),
        ) {
            Some(url) => z == (ManagerM {
                remote_services: table::put(m.remote_services, service_name, url),
                ..m
            }) && out == Ok::<ClientStepM, HaltM>(
                ClientStepM::Say(
                    node::naming_service(m, "Remote service '"@, service_name, "' registered at "@)
                        + url,
                ),
            ),
            None => z == m && out == Ok::<ClientStepM, HaltM>(ClientStepM::Import { path }),
        },
        _ => out == Ok::<ClientStepM, HaltM>(ClientStepM::Nothing) && z == m,
    }
}

/// Does what a statement of a program says.
pub fn client_step(
    manager: &mut Manager,
    stmt: &Stmt,
    watch: bool,
    urls: &Table<String, String>,
) -> (r: Result<ClientStep, Halt>)
    requires
        node::stmt_analyzable(stmt.deep_view()),
    ensures
        client_may(
            stmt.deep_view(),
            watch,
            urls.deep_view(),
            old(manager).deep_view(),
            node::ended(r),
            final(manager).deep_view(),
        ),
{
    match stmt {
        Stmt::Service { .. } => load_service(manager, stmt, Origin::Program),
        Stmt::Test { service_name, stmts } => {
            if watch {
                return Ok(ClientStep::Nothing);
            }
            match manager.execute_action(*service_name, stmts) {
                Ok(_) => Ok(
                    ClientStep::Say(name_service(manager, "@test(", *service_name, ") passed")),
                ),
                Err(e) => {
                    let before = name_service(manager, "Test failed in '", *service_name, "': ");
                    Err(halt(before.as_str(), &e))
                },
            }
        },
        Stmt::Import { path, service_name, .. } => {
            let name = manager.interner.get(*service_name);
            match urls.get(&name) {
                Some(url) => {
                    let line = name_service(
                        manager,
                        "Remote service '",
                        *service_name,
                        "' registered at ",
                    );
                    manager.remote_services.insert(*service_name, Address(url.clone()));
                    Ok(ClientStep::Say(text::cat2(line.as_str(), url.as_str())))
                },
                None => Ok(ClientStep::Import { path: path.clone() }),
            }
        },
        _ => Ok(ClientStep::Nothing),
    }
}

/// What is said of a new value of a remote member, and of the definition that
/// uses it.
pub open spec fn watched(msg: MessageM, m: ManagerM) -> (Result<Seq<Seq<char>>, ErrM>, ManagerM) {
    match msg {
        MessageM::Update { listener_service, listener_def, source_service, member, value } => {
            let log = wire::value_log(value);
            let names1 = interner::interned_all(m.interner, log.names);
            let told = if log.err is None {
                seq![
                    "[update] "@ + source_service + "."@ + member + " = "@ + debug::debug_value(
                        renaming::map_value(wire::symbolizing(names1), value),
                    ),
                ]
            } else {
                seq![]
            };
            let three = wire::three_log(listener_def, source_service, member);
            let names2 = interner::interned_all(names1, three.names);
            let m1 = ManagerM { interner: names2, ..m };
            if three.err is Some {
                (Ok(told), m1)
            } else {
                let def = interner::symbol_of(names2, listener_def);
                let (r, m2) = semantics::handle_update(
                    m.depth_limit as nat,
                    listener_service,
                    def,
                    interner::symbol_of(names2, source_service),
                    interner::symbol_of(names2, member),
                    value,
                    m1,
                );
                match r {
                    Err(e) => (Err(e), m2),
                    Ok(_) => {
                        let i = model::place_of_id(m2.services, listener_service);
                        (
                            Ok(
                                if i < m2.services.len() && table::bound(
                                    m2.services[i as int].1.vars,
                                    def,
                                ) {
                                    told.push(
                                        "          -> "@ + listener_def + " = "@
                                            + debug::debug_value(
                                            table::get(
                                                m2.services[i as int].1.vars,
                                                def,
                                            )->Some_0.value,
                                        ),
                                    )
                                } else {
                                    told
                                },
                            ),
                            m2,
                        )
                    },
                }
            }
        },
        _ => (Ok(seq![]), m),
    }
}

/// Takes up a message while watching, and gives what the user is told. Only
/// updates matter.
pub fn watch_message(manager: &mut Manager, msg: MeerkatMessage) -> (r: Result<
    Vec<String>,
    EvalError,
>)
    ensures
        (evaluator::res(r), final(manager).deep_view()) == watched(
            msg.deep_view(),
            old(manager).deep_view(),
        ),
{
    let mut lines: Vec<String> = Vec::new();
    assert(lines.deep_view() =~= Seq::<Seq<char>>::empty());
    match msg {
        MeerkatMessage::Update { listener_service, listener_def, source_service, member, value } => {
            match codec::read_value(&value, &mut manager.interner) {
                Ok(v) => {
                    proof {
                        wire::lemma_extends_self(manager.interner@);
                    }
                    let mut line = text::cat5(
                        "[update] ",
                        source_service.as_str(),
                        ".",
                        member.as_str(),
                        " = ",
                    );
                    line.append(value_debug(&v).as_str());
                    let ghost t = line@;
                    lines.push(line);
                    assert(lines.deep_view() =~= seq![t]);
                },
                Err(_) => {},
            }
            let ghost told = lines.deep_view();
            let (def, source, mem) = match codec::decode_update(
                &listener_def,
                &source_service,
                &member,
                &mut manager.interner,
            ) {
                Ok((d, s, m)) => (d, s, m),
                Err(_) => {
                    return Ok(lines);
                },
            };
            let id = ServiceNetId(listener_service);
            match manager.handle_update(id.dup(), def, source, mem, value) {
                Err(e) => {
                    return Err(e);
                },
                Ok(_) => {},
            }
            let i = manager.find_id(&id);
            if i < manager.services.entries.len() {
                assert(manager.deep_view().services[i as int]
                    == manager.services.entries@[i as int].deep_view());
                match manager.services.entries[i].1.vars.get(&def) {
                    Some(v) => {
                        let mut line = text::cat3("          -> ", listener_def.as_str(), " = ");
                        line.append(value_debug(&v.value).as_str());
                        let ghost t = line@;
                        lines.push(line);
                        assert(lines.deep_view() =~= told.push(t));
                    },
                    None => {},
                }
            }
            Ok(lines)
        },
        _ => Ok(lines),
    }
}

/// A test is reported as passed just where it was run and its action succeeded; a
/// node that only watches runs none.
pub proof fn law_test_is_reported(
    service_name: Symbol,
    stmts: Seq<ActionStmtM<Symbol>>,
    watch: bool,
    urls: Seq<(Seq<char>, Seq<char>)>,
    m: ManagerM,
    out: Result<ClientStepM, HaltM>,
    z: ManagerM,
)
    requires
        client_may(StmtM::Test { service_name, stmts }, watch, urls, m, out, z),
    ensures
        watch ==> z == m && out == Ok::<ClientStepM, HaltM>(ClientStepM::Nothing),
        !watch ==> (out is Ok <==> transactions::run_txn(
            m.depth_limit as nat,
            service_name,
            stmts,
            seq![],
            transactions::next_txn_id(m),
            transactions::ticked(m),
        ).0 is Ok),
        !watch && out is Ok ==> out->Ok_0 is Say,
{
}

/// A service that is imported from another node is reached at its address from
/// then on; one without an address is looked for in a file.
pub proof fn law_import_registers(
    path: Seq<char>,
    service_name: Symbol,
    explicit_path: bool,
    watch: bool,
    urls: Seq<(Seq<char>, Seq<char>)>,
    m: ManagerM,
    out: Result<ClientStepM, HaltM>,
    z: ManagerM,
)
    requires
        client_may(StmtM::Import { path, service_name, explicit_path }, watch, urls, m, out, z),
    ensures
        match table::get(urls, model::name(m, service_name)) {
            Some(url) => table::get(z.remote_services, service_name) == Some(url)
                && z.services == m.services,
            None => z == m && out == Ok::<ClientStepM, HaltM>(ClientStepM::Import { path }),
        },
{
    if let Some(url) = table::get(urls, model::name(m, service_name)) {
        table::lemma_put(m.remote_services, service_name, url, service_name);
    }
}

} // verus!
