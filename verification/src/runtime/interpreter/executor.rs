//! Execution of statements.

use crate::runtime::ast::{ActionStmt, Value};
use crate::runtime::interner::Symbol;
use crate::runtime::interpreter::evaluator;
use crate::runtime::interpreter::evaluator::{eval_at, EvalError};
use crate::runtime::manager;
use crate::runtime::manager::semantics;
use crate::runtime::manager::semantics::EffectM;
use crate::runtime::manager::Manager;
use crate::runtime::semantic_analysis::var_analysis::read_write;
use crate::runtime::table::Plain;
use crate::runtime::txn::Transaction;
use vstd::prelude::*;

verus! {

/// What a statement does besides changing the state.
#[derive(Debug)]
pub enum ExecuteEffect {
    /// Nothing.
    Nothing,
    /// A `let` binds a name for the statements after it.
    Binding(Symbol, Value),
    /// An expression had this value.
    ExprValue(Value),
}

impl DeepView for ExecuteEffect {
    type V = EffectM;

    open spec fn deep_view(&self) -> EffectM {
        match *self {
            ExecuteEffect::Nothing => EffectM::Nothing,
            ExecuteEffect::Binding(s, v) => EffectM::Binding(s, v.deep_view()),
            ExecuteEffect::ExprValue(v) => EffectM::ExprValue(v.deep_view()),
        }
    }
}

/// Executes a statement, with as many nested steps as the node allows.
pub fn execute(
    stmt: &ActionStmt,
    env: &Vec<(Symbol, Value)>,
    manager: &mut Manager,
    service_name: Symbol,
    txn: &mut Option<Transaction>,
) -> (r: Result<ExecuteEffect, EvalError>)
    ensures
        (evaluator::res(r), manager::world(*final(manager), *final(txn))) == semantics::execute(
            old(manager).deep_view().depth_limit as nat,
            stmt.deep_view(),
            env.deep_view(),
            service_name,
            manager::world(*old(manager), *old(txn)),
        ),
{
    let fuel = manager.depth_limit;
    execute_at(fuel, stmt, env, manager, service_name, txn)
}

/// Executes a statement with `fuel` nested steps left.
pub fn execute_at(
    fuel: u64,
    stmt: &ActionStmt,
    env: &Vec<(Symbol, Value)>,
    manager: &mut Manager,
    service_name: Symbol,
    txn: &mut Option<Transaction>,
) -> (r: Result<ExecuteEffect, EvalError>)
    ensures
        (evaluator::res(r), manager::world(*final(manager), *final(txn))) == semantics::execute(
            fuel as nat,
            stmt.deep_view(),
            env.deep_view(),
            service_name,
            manager::world(*old(manager), *old(txn)),
        ),
    decreases fuel, 0nat,
{
    proof {
        crate::runtime::ast::lemma_stmt_model(*stmt);
        reveal(semantics::execute);
        reveal(semantics::execute_step);
        reveal(semantics::eval);
        reveal(semantics::assign);
        reveal(semantics::exec_block);
        reveal(semantics::remote_action);
    }
    if fuel == 0 {
        return Err(EvalError::DepthExceeded);
    }
    let n: u64 = fuel - 1;
    if let ActionStmt::Insert { .. } = stmt {
        return Err(EvalError::NotImplemented);
    }
    let expr = read_write::expr_of_stmt(stmt);
    let val = match eval_at(n, expr, env, manager, service_name, txn) {
        Ok(v) => v,
        Err(e) => {
            return Err(e);
        },
    };
    proof {
        crate::runtime::ast::lemma_value_model(val);
    }
    match stmt {
        ActionStmt::Assign { name, .. } => {
            match manager.assign_at(n, service_name, *name, val, txn) {
                Ok(_) => Ok(ExecuteEffect::Nothing),
                Err(e) => Err(e),
            }
        },
        ActionStmt::Do(_) => {
            match val {
                Value::ActionClosure { stmts, env: own, service_net_id } => {
                    let done = match manager.service_name_for_net_id(&service_net_id) {
                        Some(target) => exec_block_at(n, &stmts, &own, manager, target, txn),
                        None => manager.remote_action_at(n, &service_net_id, &stmts, &own, txn),
                    };
                    match done {
                        Ok(_) => Ok(ExecuteEffect::Nothing),
                        Err(e) => Err(e),
                    }
                },
                _ => Err(EvalError::TypeError("do expects an action".to_owned())),
            }
        },
        ActionStmt::Assert(_, written) => {
            match val {
                Value::Bool { val: b } => {
                    if b {
                        Ok(ExecuteEffect::Nothing)
                    } else {
                        Err(EvalError::AssertionError(written.clone()))
                    }
                },
                _ => Err(EvalError::TypeError("assert expects a boolean".to_owned())),
            }
        },
        ActionStmt::Let { name, .. } => Ok(ExecuteEffect::Binding(*name, val)),
        _ => Ok(ExecuteEffect::ExprValue(val)),
    }
}

/// Executes statements in order; a `let` binds for those after it.
pub fn exec_block_at(
    fuel: u64,
    stmts: &Vec<ActionStmt>,
    env: &Vec<(Symbol, Value)>,
    manager: &mut Manager,
    service_name: Symbol,
    txn: &mut Option<Transaction>,
) -> (r: Result<(), EvalError>)
    ensures
        (
            evaluator::done(r),
            manager::world(*final(manager), *final(txn)),
        ) == semantics::exec_block(
            fuel as nat,
            stmts.deep_view(),
            0,
            env.deep_view(),
            service_name,
            manager::world(*old(manager), *old(txn)),
        ),
    decreases fuel, 1nat,
{
    let ghost t = stmts.deep_view();
    let ghost whole = semantics::exec_block(
        fuel as nat,
        t,
        0,
        env.deep_view(),
        service_name,
        manager::world(*manager, *txn),
    );
    let mut own = env.dup();
    for i in 0..stmts.len()
        invariant
            t == stmts.deep_view(),
            whole == semantics::exec_block(
                fuel as nat,
                t,
                i as nat,
                own.deep_view(),
                service_name,
                manager::world(*manager, *txn),
            ),
            whole == semantics::exec_block(
                fuel as nat,
                t,
                0,
                env.deep_view(),
                service_name,
                manager::world(*old(manager), *old(txn)),
            ),
    {
        proof {
            reveal(semantics::exec_block);
            reveal(semantics::execute);
        }
        match execute_at(fuel, &stmts[i], &own, manager, service_name, txn) {
            Err(e) => {
                return Err(e);
            },
            Ok(ExecuteEffect::Binding(name, v)) => {
                let ghost before = own.deep_view();
                own.push((name, v));
                assert(own.deep_view() =~= before.push((name, v.deep_view())));
            },
            Ok(_) => {},
        }
    }
    proof {
        reveal(semantics::exec_block);
    }
    Ok(())
}

} // verus!
