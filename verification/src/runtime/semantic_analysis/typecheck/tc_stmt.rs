//! The types of declarations and actions.

use crate::runtime::ast::model::{ActionStmtM, DeclM, FieldM};
use crate::runtime::ast::{ActionStmt, Decl, Expr, Field};
use crate::runtime::interner::Symbol;
use crate::runtime::semantic_analysis::typecheck;
use crate::runtime::semantic_analysis::typecheck::tc_expr;
use crate::runtime::semantic_analysis::typecheck::types::{TyM, Type};
use crate::runtime::semantic_analysis::typecheck::{TypeEnvM, TypecheckEnv};
use crate::runtime::table;
use crate::runtime::table::Plain;
use vstd::prelude::*;

verus! {

/// Whether no two columns have the same name.
pub open spec fn fields_differ(fields: Seq<FieldM<Symbol>>) -> bool {
    forall|i: int, j: int|
        0 <= i < j < fields.len() ==> (#[trigger] fields[i]).name != (#[trigger] fields[j]).name
}

/// What is known after a declaration, or nothing where it is no good one.
pub open spec fn checked_decl(d: DeclM<Symbol>, env: TypeEnvM) -> Option<TypeEnvM> {
    match d {
        DeclM::VarDecl { name, ty, val } => match tc_expr::infer(val, env) {
            None => None,
            Some((t, env1)) => Some(
                TypeEnvM { names: table::put(env1.names, name, t), ..env1 },
            ),
        },
        DeclM::DefDecl { name, ty, val, is_pub } => match tc_expr::infer(val, env) {
            None => None,
            Some((t, env1)) => Some(
                TypeEnvM { names: table::put(env1.names, name, t), ..env1 },
            ),
        },
        DeclM::TableDecl { name, fields } => if fields_differ(fields) {
            Some(TypeEnvM { vars: table::put(env.vars, name, TyM::Table(fields)), ..env })
        } else {
            None
        },
    }
}

/// What is known after the commands from place `i` on: `do` takes an action,
/// `assert` a truth value, and there is no rule for the others.
pub open spec fn checked_action(
    commands: Seq<ActionStmtM<Symbol>>,
    i: nat,
    env: TypeEnvM,
) -> Option<TypeEnvM>
    decreases commands.len() - i,
{
    if i >= commands.len() {
        Some(env)
    } else {
        match checked_command(commands[i as int], env) {
            None => None,
            Some(env1) => checked_action(commands, i + 1, env1),
        }
    }
}

/// What is known after a command.
pub open spec fn checked_command(c: ActionStmtM<Symbol>, env: TypeEnvM) -> Option<TypeEnvM> {
    match c {
        ActionStmtM::Do(e) => match tc_expr::infer(e, env) {
            None => None,
            Some((t, env1)) => typecheck::equated(env1, t, TyM::Action),
        },
        ActionStmtM::Assert(e, written) => match tc_expr::infer(e, env) {
            None => None,
            Some((t, env1)) => typecheck::equated(env1, t, TyM::Bool),
        },
        _ => None,
    }
}

fn columns_differ(fields: &Vec<Field>) -> (r: bool)
    ensures
        r == fields_differ(fields.deep_view()),
{
    let ghost p = fields.deep_view();
    for j in 0..fields.len()
        invariant
            p == fields.deep_view(),
            forall|a: int, b: int|
                0 <= a < b < j ==> (#[trigger] p[a]).name != (#[trigger] p[b]).name,
    {
        for i in 0..j
            invariant
                j < fields@.len(),
                p == fields.deep_view(),
                forall|a: int| 0 <= a < i ==> (#[trigger] p[a]).name != p[j as int].name,
        {
            if fields[i].name == fields[j].name {
                assert(p[i as int].name == p[j as int].name);
                return false;
            }
        }
    }
    true
}

impl TypecheckEnv {
    /// Checks a declaration, and remembers the type of what it declares. Tells
    /// whether it is good; what is known stays as it was where it is not.
    pub fn try_typecheck_decl(&mut self, decl: &Decl) -> (r: bool)
        ensures
            match checked_decl(decl.deep_view(), old(self).deep_view()) {
                Some(env) => r && final(self).deep_view() == env,
                None => !r && final(self).deep_view() == old(self).deep_view(),
            },
    {
        match decl {
            Decl::VarDecl { name, ty, val } => match self.try_infer_expr(val) {
                Some(t) => {
                    self.name_context.insert(*name, t);
                    true
                },
                None => false,
            },
            Decl::DefDecl { name, ty, val, is_pub } => match self.try_infer_expr(val) {
                Some(t) => {
                    self.name_context.insert(*name, t);
                    true
                },
                None => false,
            },
            Decl::TableDecl { name, fields } => {
                if columns_differ(fields) {
                    self.var_context.insert(*name, Type::Table(fields.dup()));
                    true
                } else {
                    false
                }
            },
        }
    }

    /// Checks a good declaration, and remembers the type of what it declares.
    pub fn typecheck_decl(&mut self, decl: &Decl)
        requires
            checked_decl(decl.deep_view(), old(self).deep_view()) is Some,
        ensures
            Some(final(self).deep_view()) == checked_decl(
                decl.deep_view(),
                old(self).deep_view(),
            ),
    {
        self.try_typecheck_decl(decl);
    }

    fn check_type(&mut self, e: &Expr, want: &Type) -> (r: bool)
        ensures
            match tc_expr::infer(e.deep_view(), old(self).deep_view()) {
                Some((t, env)) => match typecheck::equated(env, t, want.deep_view()) {
                    Some(env1) => r && final(self).deep_view() == env1,
                    None => !r,
                },
                None => !r,
            },
    {
        match self.try_infer_expr(e) {
            Some(t) => self.unify(&t, want),
            None => false,
        }
    }

    /// Checks the commands of an action. Tells whether they are good; what is
    /// known stays as it was where they are not.
    pub fn try_typecheck_action(&mut self, commands: &Vec<ActionStmt>) -> (r: bool)
        ensures
            match checked_action(commands.deep_view(), 0, old(self).deep_view()) {
                Some(env) => r && final(self).deep_view() == env,
                None => !r && final(self).deep_view() == old(self).deep_view(),
            },
    {
        let ghost c = commands.deep_view();
        let ghost env0 = self.deep_view();
        let mut work = self.dup();
        for i in 0..commands.len()
            invariant
                c == commands.deep_view(),
                env0 == self.deep_view(),
                self.deep_view() == old(self).deep_view(),
                checked_action(c, 0, env0) == checked_action(c, i as nat, work.deep_view()),
        {
            assert(c[i as int] == commands@[i as int].deep_view());
            proof {
                crate::runtime::ast::lemma_stmt_model(commands@[i as int]);
            }
            let good = match &commands[i] {
                ActionStmt::Do(e) => work.check_type(e, &Type::Action),
                ActionStmt::Assert(e, written) => work.check_type(e, &Type::Bool),
                _ => false,
            };
            if !good {
                return false;
            }
        }
        *self = work;
        true
    }

    /// Checks the commands of an action, which are good.
    pub fn typecheck_action(&mut self, commands: &Vec<ActionStmt>)
        requires
            checked_action(commands.deep_view(), 0, old(self).deep_view()) is Some,
        ensures
            Some(final(self).deep_view()) == checked_action(
                commands.deep_view(),
                0,
                old(self).deep_view(),
            ),
    {
        self.try_typecheck_action(commands);
    }
}

} // verus!
