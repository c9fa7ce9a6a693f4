//! Which names a term uses, and which declarations depend on which.

use crate::runtime::ast::{Decl, Stmt};
use crate::runtime::interner::Symbol;
use crate::runtime::semantic_analysis::var_analysis::dep_analysis::DependAnalysis;
use vstd::prelude::*;

pub mod alpha_rename;
pub mod dep_analysis;
pub mod read_write;
pub mod report;
pub mod symbols;

verus! {

/// The dependency analysis of a service.
pub fn calc_dep_srv(decls: &Vec<Decl>) -> (r: DependAnalysis)
    requires
        dep_analysis::analyzable(decls.deep_view()),
    ensures
        r.deep_view().declared_by(decls.deep_view()),
        r.deep_view().solved(),
        r.deep_view().exact(),
{
    let mut da = DependAnalysis::new(decls);
    da.calc_dep_vars();
    da
}

/// Whether every service of a program can be analysed.
pub open spec fn program_analyzable(stmts: Seq<crate::runtime::ast::model::StmtM<Symbol>>) -> bool {
    forall|i: int|
        0 <= i < stmts.len() ==> match #[trigger] stmts[i] {
            crate::runtime::ast::model::StmtM::Service { name, decls } => dep_analysis::analyzable(
                decls,
            ),
            crate::runtime::ast::model::StmtM::Update { service_name, decls } =>
                dep_analysis::analyzable(decls),
            _ => true,
        }
}

/// The declarations of the services that the first `n` statements declare or
/// update, in order.
pub open spec fn declared_in(
    stmts: Seq<crate::runtime::ast::model::StmtM<Symbol>>,
    n: nat,
) -> Seq<Seq<crate::runtime::ast::model::DeclM<Symbol>>>
    decreases n,
{
    if n == 0 {
        seq![]
    } else {
        let rest = declared_in(stmts, (n - 1) as nat);
        match stmts[n - 1] {
            crate::runtime::ast::model::StmtM::Service { name, decls } => rest.push(decls),
            crate::runtime::ast::model::StmtM::Update { service_name, decls } => rest.push(decls),
            _ => rest,
        }
    }
}

/// Analyses each service of a program, in order.
pub fn calc_dep_prog(stmts: &Vec<Stmt>) -> (r: Vec<DependAnalysis>)
    requires
        program_analyzable(stmts.deep_view()),
    ensures
        r@.len() == declared_in(stmts.deep_view(), stmts.deep_view().len()).len(),
        forall|i: int|
            0 <= i < r@.len() ==> (#[trigger] r@[i]).deep_view().solved()
                && r@[i].deep_view().exact() && r@[i].deep_view().declared_by(
                declared_in(stmts.deep_view(), stmts.deep_view().len())[i],
            ),
{
    let ghost t = stmts.deep_view();
    let mut out: Vec<DependAnalysis> = Vec::new();
    for i in 0..stmts.len()
        invariant
            t == stmts.deep_view(),
            program_analyzable(t),
            out@.len() == declared_in(t, i as nat).len(),
            forall|j: int|
                0 <= j < out@.len() ==> (#[trigger] out@[j]).deep_view().solved()
                    && out@[j].deep_view().exact() && out@[j].deep_view().declared_by(declared_in(t, i as nat)[j]),
    {
        assert(t[i as int] == stmts@[i as int].deep_view());
        match &stmts[i] {
            Stmt::Service { decls, .. } => {
                out.push(calc_dep_srv(decls));
            },
            Stmt::Update { decls, .. } => {
                out.push(calc_dep_srv(decls));
            },
            _ => {},
        }
    }
    out
}

} // verus!
