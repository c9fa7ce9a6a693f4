//! Type inference.

use crate::runtime::interner::Symbol;
use crate::runtime::semantic_analysis::typecheck::types::{TyM, Type};
use crate::runtime::semantic_analysis::typecheck::unify::{find, SubstM};
use crate::runtime::table::{Plain, Table};
use vstd::prelude::*;

pub mod agreement;
pub mod laws;
pub mod sound;
pub mod tc_expr;
pub mod tc_stmt;
pub mod types;
pub mod unify;

verus! {

/// What is known while types are inferred: the types of variables and tables,
/// those of the names of a service, and what stands for type variables.
#[derive(Debug)]
pub struct TypecheckEnv {
    pub var_context: Table<Symbol, Type>,
    pub name_context: Table<Symbol, Type>,
    pub acc_subst: Table<u64, Type>,
    pub next_typevar: u64,
}

/// The model of a [`TypecheckEnv`].
pub struct TypeEnvM {
    pub vars: Seq<(Symbol, TyM)>,
    pub names: Seq<(Symbol, TyM)>,
    pub subst: SubstM,
    pub next: u64,
}

impl DeepView for TypecheckEnv {
    type V = TypeEnvM;

    open spec fn deep_view(&self) -> TypeEnvM {
        TypeEnvM {
            vars: self.var_context.deep_view(),
            names: self.name_context.deep_view(),
            subst: self.acc_subst.deep_view(),
            next: self.next_typevar,
        }
    }
}

/// A type variable that was not there before; nothing where there are no more.
pub open spec fn fresh(env: TypeEnvM) -> Option<(TyM, TypeEnvM)> {
    if env.next == u64::MAX {
        None
    } else {
        Some((TyM::TypeVar(env.next), TypeEnvM { next: (env.next + 1) as u64, ..env }))
    }
}

/// Two types are made equal, where they can be.
pub open spec fn equated(env: TypeEnvM, a: TyM, b: TyM) -> Option<TypeEnvM> {
    match unify::unified(env.next, env.subst, a, b) {
        Some(s) => Some(TypeEnvM { subst: s, ..env }),
        None => None,
    }
}

/// The type as far as it is known.
pub open spec fn seen(env: TypeEnvM, t: TyM) -> TyM {
    unify::found(env.subst, t)
}

impl TypecheckEnv {
    /// Nothing is known.
    pub fn new() -> (r: TypecheckEnv)
        ensures
            r.deep_view() == (TypeEnvM { vars: seq![], names: seq![], subst: seq![], next: 0 }),
    {
        TypecheckEnv {
            var_context: Table::new(),
            name_context: Table::new(),
            acc_subst: Table::new(),
            next_typevar: 0,
        }
    }

    /// A copy.
    pub fn dup(&self) -> (r: TypecheckEnv)
        ensures
            r.deep_view() == self.deep_view(),
    {
        TypecheckEnv {
            var_context: Table { entries: self.var_context.entries.dup() },
            name_context: Table { entries: self.name_context.entries.dup() },
            acc_subst: Table { entries: self.acc_subst.entries.dup() },
            next_typevar: self.next_typevar,
        }
    }

    /// A type variable that was not there before; nothing where there are no
    /// more.
    pub fn gen_typevar(&mut self) -> (r: Option<Type>)
        ensures
            match fresh(old(self).deep_view()) {
                Some((t, env)) => r matches Some(x) && x.deep_view() == t
                    && final(self).deep_view() == env,
                None => r is None && final(self).deep_view() == old(self).deep_view(),
            },
    {
        if self.next_typevar == u64::MAX {
            None
        } else {
            let t = Type::TypeVar(self.next_typevar);
            self.next_typevar = self.next_typevar + 1;
            Some(t)
        }
    }

    /// Makes two types equal, where they can be; tells whether they can.
    pub fn unify(&mut self, a: &Type, b: &Type) -> (r: bool)
        ensures
            match equated(old(self).deep_view(), a.deep_view(), b.deep_view()) {
                Some(env) => r && final(self).deep_view() == env,
                None => !r,
            },
    {
        unify::unify(self.next_typevar, &mut self.acc_subst, a, b)
    }

    /// The type as far as it is known.
    pub fn find(&self, t: &Type) -> (r: Type)
        ensures
            r.deep_view() == seen(self.deep_view(), t.deep_view()),
    {
        find(&self.acc_subst, t)
    }
}

} // verus!
