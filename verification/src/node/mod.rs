//! What a node does with its program, with messages and with input.
//!
//! A step that needs a reply that has not arrived ends as suspended. The host
//! then takes the node as it was before the step, adds what has arrived, and
//! takes the step again.

use crate::runtime::ast::model::{DeclM, StmtM};
use crate::runtime::ast::Decl;
use crate::runtime::interner::Symbol;
use crate::runtime::interpreter::evaluator;
use crate::runtime::interpreter::evaluator::{ErrM, EvalError};
use crate::runtime::manager::model;
use crate::runtime::manager::model::ManagerM;
use crate::runtime::manager::transactions;
use crate::runtime::manager::Manager;
use crate::runtime::semantic_analysis::var_analysis::dep_analysis;
use crate::runtime::semantic_analysis::var_analysis::dep_analysis::DepM;
use crate::runtime::table::Plain;
use crate::runtime::text;
use vstd::prelude::*;

pub mod client;
pub mod repl;
pub mod server;

verus! {

/// Why a step ended early.
#[derive(Debug, Clone, PartialEq)]
pub enum Halt {
    /// A reply has not arrived yet.
    Suspended,
    /// The step failed; the text is for the user.
    Failed(String),
}

/// The model of a [`Halt`].
pub enum HaltM {
    Suspended,
    Failed(Seq<char>),
}

impl DeepView for Halt {
    type V = HaltM;

    open spec fn deep_view(&self) -> HaltM {
        match *self {
            Halt::Suspended => HaltM::Suspended,
            Halt::Failed(s) => HaltM::Failed(s@),
        }
    }
}

/// The model of the outcome of a step.
pub open spec fn ended<T: DeepView>(r: Result<T, Halt>) -> Result<T::V, HaltM> {
    match r {
        Ok(x) => Ok(x.deep_view()),
        Err(h) => Err(h.deep_view()),
    }
}

/// How an error ends a step: the failure is described after `before`.
pub open spec fn halted(before: Seq<char>, e: ErrM) -> HaltM {
    if e is Suspended {
        HaltM::Suspended
    } else {
        HaltM::Failed(before + evaluator::error_text(e))
    }
}

/// Ends a step with an error.
pub fn halt(before: &str, e: &EvalError) -> (r: Halt)
    ensures
        r.deep_view() == halted(before@, e.deep_view()),
{
    match e {
        EvalError::Suspended => Halt::Suspended,
        _ => Halt::Failed(text::cat2(before, e.to_text().as_str())),
    }
}

/// Whether the dependencies of a statement's declarations can be worked out.
pub open spec fn stmt_analyzable(stmt: StmtM<Symbol>) -> bool {
    match stmt {
        StmtM::Service { decls, .. } => dep_analysis::analyzable(decls),
        _ => true,
    }
}

/// Whether creating a service goes as `r` says and leaves the node as `z`.
pub open spec fn creates(
    name: Symbol,
    decls: Seq<DeclM<Symbol>>,
    m: ManagerM,
    r: Result<(), ErrM>,
    z: ManagerM,
) -> bool {
    exists|dep: DepM|
        #![trigger dep.solved()]
        dep.solved() && dep.exact() && dep.declared_by(decls) && (r, z) == transactions::create(
            m.depth_limit as nat,
            name,
            decls,
            dep,
            m,
        )
}

/// The name of a service between two texts.
pub open spec fn naming_service(m: ManagerM, before: Seq<char>, name: Symbol, after: Seq<char>) -> Seq<
    char,
> {
    before + model::name(m, name) + after
}

/// The name of a service between two texts.
pub fn name_service(manager: &Manager, before: &str, name: Symbol, after: &str) -> (r: String)
    ensures
        r@ == naming_service(manager.deep_view(), before@, name, after@),
{
    text::cat3(before, manager.interner.get(name).as_str(), after)
}

/// Creates a service out of declarations that are kept.
pub fn create_from(manager: &mut Manager, name: Symbol, decls: &Vec<Decl>) -> (r: Result<
    (),
    EvalError,
>)
    requires
        dep_analysis::analyzable(decls.deep_view()),
    ensures
        creates(
            name,
            decls.deep_view(),
            old(manager).deep_view(),
            evaluator::done(r),
            final(manager).deep_view(),
        ),
{
    manager.create_service(name, decls.dup())
}

} // verus!
