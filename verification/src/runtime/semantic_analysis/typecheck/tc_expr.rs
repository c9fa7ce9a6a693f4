//! The types of expressions.

use crate::runtime::ast::model::{BinOpM, ExprM, FieldM, TableTypeM, UnOpM, ValueM};
use crate::runtime::ast::{BinOp, Expr, Field, TableType, UnOp, Value};
use crate::runtime::interner::Symbol;
use crate::runtime::semantic_analysis::typecheck;
use crate::runtime::semantic_analysis::typecheck::types;
use crate::runtime::semantic_analysis::typecheck::types::{TyM, Type};
use crate::runtime::semantic_analysis::typecheck::{TypeEnvM, TypecheckEnv};
use crate::runtime::table;
use crate::runtime::table::{Plain, Table};
use crate::runtime::tt::{Param, ParamM};
use vstd::prelude::*;

verus! {

/// The type of a literal. A closure has none.
pub open spec fn literal_type(v: ValueM<Symbol>) -> Option<TyM> {
    match v {
        ValueM::Int { .. } => Some(TyM::Int),
        ValueM::Bool { .. } => Some(TyM::Bool),
        ValueM::String { .. } => Some(TyM::String),
        _ => None,
    }
}

/// The type that the operands of an operator have; equality takes any.
pub open spec fn operand_type(op: BinOpM) -> Option<TyM> {
    match op {
        BinOpM::Add => Some(TyM::Int),
        BinOpM::Sub => Some(TyM::Int),
        BinOpM::Mul => Some(TyM::Int),
        BinOpM::Div => Some(TyM::Int),
        BinOpM::Lt => Some(TyM::Int),
        BinOpM::Gt => Some(TyM::Int),
        BinOpM::And => Some(TyM::Bool),
        BinOpM::Or => Some(TyM::Bool),
        BinOpM::Eq => None,
    }
}

/// The type that an operator gives.
pub open spec fn result_type(op: BinOpM) -> TyM {
    match op {
        BinOpM::Add => TyM::Int,
        BinOpM::Sub => TyM::Int,
        BinOpM::Mul => TyM::Int,
        BinOpM::Div => TyM::Int,
        _ => TyM::Bool,
    }
}

/// The type that a unary operator takes and gives.
pub open spec fn unop_type(op: UnOpM) -> TyM {
    match op {
        UnOpM::Neg => TyM::Int,
        UnOpM::Not => TyM::Bool,
    }
}

/// The type of a column.
pub open spec fn column_type(t: TableTypeM) -> TyM {
    match t {
        TableTypeM::Bool => TyM::Bool,
        TableTypeM::Int => TyM::Int,
        TableTypeM::String => TyM::String,
    }
}

/// The operands of an operator get the types that it takes.
pub open spec fn operands(op: BinOpM, a: TyM, b: TyM, env: TypeEnvM) -> Option<TypeEnvM> {
    match operand_type(op) {
        None => typecheck::equated(env, a, b),
        Some(t) => match typecheck::equated(env, a, t) {
            None => None,
            Some(env1) => typecheck::equated(env1, b, t),
        },
    }
}

/// Whether no two parameters have the same name.
pub open spec fn params_differ(params: Seq<ParamM<Symbol>>) -> bool {
    forall|i: int, j: int|
        0 <= i < j < params.len() ==> (#[trigger] params[i]).name != (#[trigger] params[j]).name
}

/// The first `n` parameters get types that are not known yet.
pub open spec fn with_params(params: Seq<ParamM<Symbol>>, n: nat, env: TypeEnvM) -> Option<
    (Seq<TyM>, TypeEnvM),
>
    decreases n,
{
    if n == 0 {
        Some((seq![], env))
    } else {
        match with_params(params, (n - 1) as nat, env) {
            None => None,
            Some((tys, env1)) => match typecheck::fresh(env1) {
                None => None,
                Some((t, env2)) => Some(
                    (
                        tys.push(t),
                        TypeEnvM {
                            vars: table::put(env2.vars, params[n - 1].name, t),
                            ..env2
                        },
                    ),
                ),
            },
        }
    }
}

/// Types as far as they are known.
pub open spec fn seen_all(env: TypeEnvM, tys: Seq<TyM>) -> Seq<TyM> {
    Seq::new(tys.len(), |i: int| typecheck::seen(env, tys[i]))
}

/// The columns of a table.
pub open spec fn schema_of(env: TypeEnvM, name: Symbol) -> Option<Seq<FieldM<Symbol>>> {
    match table::get(env.vars, name) {
        Some(TyM::Table(fields)) => Some(fields),
        _ => None,
    }
}

/// The type of the first column with that name, among those from place `i` on.
pub open spec fn column_of(fields: Seq<FieldM<Symbol>>, i: nat, name: Symbol) -> Option<TyM>
    decreases fields.len() - i,
{
    if i >= fields.len() {
        None
    } else if fields[i as int].name == name {
        Some(column_type(fields[i as int].ty))
    } else {
        column_of(fields, i + 1, name)
    }
}

/// Whether each name is that of a column.
pub open spec fn columns_there(fields: Seq<FieldM<Symbol>>, names: Seq<Symbol>) -> bool {
    forall|i: int|
        0 <= i < names.len() ==> column_of(fields, 0, #[trigger] names[i]) is Some
}

/// Each of the types from place `i` on becomes the type `t`.
pub open spec fn equate_each(tys: Seq<TyM>, i: nat, t: TyM, env: TypeEnvM) -> Option<TypeEnvM>
    decreases tys.len() - i,
{
    if i >= tys.len() {
        Some(env)
    } else {
        match typecheck::equated(env, tys[i as int], t) {
            None => None,
            Some(env1) => equate_each(tys, i + 1, t, env1),
        }
    }
}

/// The type of an expression and what is known then, or nothing where the
/// expression has no type.
#[verifier::opaque]
pub open spec fn infer(e: ExprM<Symbol>, env: TypeEnvM) -> Option<(TyM, TypeEnvM)>
    decreases e, 0nat,
{
    match e {
        ExprM::Literal { val } => match literal_type(val) {
            Some(t) => Some((t, env)),
            None => None,
        },
        ExprM::KeyVal { name, value } => infer(*value, env),
        ExprM::Tuple { val } => match infer_all(val, 0, seq![], env) {
            None => None,
            Some((tys, env1)) => Some((TyM::Vector(tys), env1)),
        },
        ExprM::Variable { name } => match table::get(env.vars, name) {
            Some(t) => Some((t, env)),
            None => match table::get(env.names, name) {
                Some(t) => Some((t, env)),
                None => None,
            },
        },
        ExprM::Unop { op, expr } => match infer(*expr, env) {
            None => None,
            Some((t, env1)) => match typecheck::equated(env1, t, unop_type(op)) {
                None => None,
                Some(env2) => Some((unop_type(op), env2)),
            },
        },
        ExprM::Binop { op, expr1, expr2 } => match infer(*expr1, env) {
            None => None,
            Some((a, env1)) => match infer(*expr2, env1) {
                None => None,
                Some((b, env2)) => match operands(op, a, b, env2) {
                    None => None,
                    Some(env3) => Some((result_type(op), env3)),
                },
            },
        },
        ExprM::If { cond, expr1, expr2 } => match infer(*cond, env) {
            None => None,
            Some((c, env1)) => match typecheck::equated(env1, c, TyM::Bool) {
                None => None,
                Some(env2) => match infer(*expr1, env2) {
                    None => None,
                    Some((a, env3)) => match infer(*expr2, env3) {
                        None => None,
                        Some((b, env4)) => match typecheck::equated(env4, a, b) {
                            None => None,
                            Some(env5) => Some((typecheck::seen(env5, a), env5)),
                        },
                    },
                },
            },
        },
        ExprM::Func { params, body, return_ty } => if !params_differ(params) {
            None
        } else {
            match with_params(params, params.len(), env) {
                None => None,
                Some((tys, env1)) => match infer(*body, env1) {
                    None => None,
                    Some((r, env2)) => Some(
                        (
                            TyM::Fun(seen_all(env2, tys), Box::new(typecheck::seen(env2, r))),
                            TypeEnvM { vars: env.vars, ..env2 },
                        ),
                    ),
                },
            }
        },
        ExprM::Call { func, args } => match infer(*func, env) {
            None => None,
            Some((TyM::Fun(tys, r), env1)) => if tys.len() != args.len() {
                None
            } else {
                match infer_args(args, 0, tys, env1) {
                    None => None,
                    Some(env2) => Some((typecheck::seen(env2, *r), env2)),
                }
            },
            Some((f, env1)) => match typecheck::fresh(env1) {
                None => None,
                Some((r, env2)) => match infer_all(args, 0, seq![], env2) {
                    None => None,
                    Some((tys, env3)) => match typecheck::equated(
                        env3,
                        f,
                        TyM::Fun(tys, Box::new(r)),
                    ) {
                        None => None,
                        Some(env4) => Some((typecheck::seen(env4, r), env4)),
                    },
                },
            },
        },
        ExprM::Action(stmts) => Some((TyM::Action, env)),
        ExprM::MemberAccess { .. } => typecheck::fresh(env),
        ExprM::Select { table_name, column_names, where_clause } => match schema_of(
            env,
            table_name,
        ) {
            None => None,
            Some(fields) => if !columns_there(fields, column_names) {
                None
            } else {
                match infer(*where_clause, env) {
                    Some((TyM::Bool, env1)) => Some((TyM::Table(fields), env1)),
                    _ => None,
                }
            },
        },
        ExprM::Table { schema, records } => Some((TyM::Table(schema), env)),
        ExprM::Fold { table_name, column_name, operation, identity } => match schema_of(
            env,
            table_name,
        ) {
            None => None,
            Some(fields) => match column_of(fields, 0, column_name) {
                None => None,
                Some(column) => match infer(*operation, env) {
                    None => None,
                    Some((f, env1)) => match infer(*identity, env1) {
                        None => None,
                        Some((a, env2)) => folded(f, a, column, env2),
                    },
                },
            },
        },
    }
}

/// The type of folding a column: the function gives what it starts from, and
/// takes entries of the column.
pub open spec fn folded(f: TyM, a: TyM, column: TyM, env: TypeEnvM) -> Option<(TyM, TypeEnvM)> {
    match f {
        TyM::Fun(tys, r) => match typecheck::equated(env, a, *r) {
            None => None,
            Some(env1) => match equate_each(tys, 0, column, env1) {
                None => None,
                Some(env2) => Some((typecheck::seen(env2, a), env2)),
            },
        },
        _ => None,
    }
}

/// The types of the expressions from place `i` on, after those in `acc`.
#[verifier::opaque]
pub open spec fn infer_all(
    v: Seq<ExprM<Symbol>>,
    i: nat,
    acc: Seq<TyM>,
    env: TypeEnvM,
) -> Option<(Seq<TyM>, TypeEnvM)>
    decreases v, v.len() - i,
{
    if i >= v.len() {
        Some((acc, env))
    } else {
        match infer(v[i as int], env) {
            None => None,
            Some((t, env1)) => infer_all(v, i + 1, acc.push(t), env1),
        }
    }
}

/// The arguments from place `i` on get the types that are expected.
#[verifier::opaque]
pub open spec fn infer_args(
    v: Seq<ExprM<Symbol>>,
    i: nat,
    tys: Seq<TyM>,
    env: TypeEnvM,
) -> Option<TypeEnvM>
    decreases v, v.len() - i,
{
    if i >= v.len() {
        Some(env)
    } else {
        match infer(v[i as int], env) {
            None => None,
            Some((t, env1)) => match typecheck::equated(env1, tys[i as int], t) {
                None => None,
                Some(env2) => infer_args(v, i + 1, tys, env2),
            },
        }
    }
}

fn literal_ty(v: &Value) -> (r: Option<Type>)
    ensures
        r.deep_view() == literal_type(v.deep_view()),
{
    proof {
        crate::runtime::ast::lemma_value_model(*v);
    }
    match v {
        Value::Int { .. } => Some(Type::Int),
        Value::Bool { .. } => Some(Type::Bool),
        Value::String { .. } => Some(Type::String),
        _ => None,
    }
}

fn operand_ty(op: BinOp) -> (r: Option<Type>)
    ensures
        r.deep_view() == operand_type(op.deep_view()),
{
    match op {
        BinOp::Add => Some(Type::Int),
        BinOp::Sub => Some(Type::Int),
        BinOp::Mul => Some(Type::Int),
        BinOp::Div => Some(Type::Int),
        BinOp::Lt => Some(Type::Int),
        BinOp::Gt => Some(Type::Int),
        BinOp::And => Some(Type::Bool),
        BinOp::Or => Some(Type::Bool),
        BinOp::Eq => None,
    }
}

fn result_ty(op: BinOp) -> (r: Type)
    ensures
        r.deep_view() == result_type(op.deep_view()),
{
    match op {
        BinOp::Add => Type::Int,
        BinOp::Sub => Type::Int,
        BinOp::Mul => Type::Int,
        BinOp::Div => Type::Int,
        _ => Type::Bool,
    }
}

fn unop_ty(op: UnOp) -> (r: Type)
    ensures
        r.deep_view() == unop_type(op.deep_view()),
{
    match op {
        UnOp::Neg => Type::Int,
        UnOp::Not => Type::Bool,
    }
}

fn column_ty(t: TableType) -> (r: Type)
    ensures
        r.deep_view() == column_type(t.deep_view()),
{
    match t {
        TableType::Bool => Type::Bool,
        TableType::Int => Type::Int,
        TableType::String => Type::String,
    }
}

fn all_differ(params: &Vec<Param>) -> (r: bool)
    ensures
        r == params_differ(params.deep_view()),
{
    let ghost p = params.deep_view();
    for j in 0..params.len()
        invariant
            p == params.deep_view(),
            forall|a: int, b: int|
                0 <= a < b < j ==> (#[trigger] p[a]).name != (#[trigger] p[b]).name,
    {
        for i in 0..j
            invariant
                j < params@.len(),
                p == params.deep_view(),
                forall|a: int| 0 <= a < i ==> (#[trigger] p[a]).name != p[j as int].name,
        {
            if params[i].name == params[j].name {
                assert(p[i as int].name == p[j as int].name);
                return false;
            }
        }
    }
    true
}

fn find_column(fields: &Vec<Field>, name: &Symbol) -> (r: Option<Type>)
    ensures
        r.deep_view() == column_of(fields.deep_view(), 0, *name),
{
    let ghost f = fields.deep_view();
    for i in 0..fields.len()
        invariant
            f == fields.deep_view(),
            column_of(f, 0, *name) == column_of(f, i as nat, *name),
    {
        assert(f[i as int] == fields@[i as int].deep_view());
        if fields[i].name == *name {
            return Some(column_ty(fields[i].ty));
        }
    }
    None
}

fn all_columns(fields: &Vec<Field>, names: &Vec<Symbol>) -> (r: bool)
    ensures
        r == columns_there(fields.deep_view(), names.deep_view()),
{
    let ghost f = fields.deep_view();
    let ghost n = names.deep_view();
    for i in 0..names.len()
        invariant
            f == fields.deep_view(),
            n == names.deep_view(),
            forall|j: int| 0 <= j < i ==> column_of(f, 0, #[trigger] n[j]) is Some,
    {
        let c = find_column(fields, &names[i]);
        assert(n[i as int] == names@[i as int]);
        if c.is_none() {
            assert(column_of(f, 0, n[i as int]) is None);
            return false;
        }
    }
    true
}

impl TypecheckEnv {
    /// The columns of a table.
    fn schema(&self, name: &Symbol) -> (r: Option<Vec<Field>>)
        ensures
            r.deep_view() == schema_of(self.deep_view(), *name),
    {
        match self.var_context.get(name) {
            Some(t) => {
                proof {
                    types::lemma_ty_model(*t);
                }
                match t {
                    Type::Table(fields) => Some(fields.dup()),
                    _ => None,
                }
            },
            None => None,
        }
    }

    /// Gives the operands of an operator the types that it takes.
    fn check_operands(&mut self, op: BinOp, a: &Type, b: &Type) -> (r: bool)
        ensures
            match operands(
                op.deep_view(),
                a.deep_view(),
                b.deep_view(),
                old(self).deep_view(),
            ) {
                Some(env) => r && final(self).deep_view() == env,
                None => !r,
            },
    {
        match operand_ty(op) {
            None => self.unify(a, b),
            Some(t) => self.unify(a, &t) && self.unify(b, &t),
        }
    }

    /// Gives the parameters types that are not known yet.
    fn bind_param_types(&mut self, params: &Vec<Param>) -> (r: Option<Vec<Type>>)
        ensures
            match with_params(
                params.deep_view(),
                params.deep_view().len(),
                old(self).deep_view(),
            ) {
                Some((tys, env)) => r matches Some(x) && x.deep_view() == tys
                    && final(self).deep_view() == env,
                None => r is None,
            },
    {
        let ghost p = params.deep_view();
        let ghost env0 = self.deep_view();
        let mut out: Vec<Type> = Vec::new();
        assert(out.deep_view() =~= Seq::<TyM>::empty());
        for i in 0..params.len()
            invariant
                p == params.deep_view(),
                env0 == old(self).deep_view(),
                with_params(p, i as nat, env0) == Some((out.deep_view(), self.deep_view())),
        {
            let ghost before = out.deep_view();
            assert(p[i as int] == params@[i as int].deep_view());
            match self.gen_typevar() {
                None => {
                    proof {
                        assert(with_params(p, (i + 1) as nat, env0) is None);
                        lemma_no_params(p, (i + 1) as nat, p.len(), env0);
                    }
                    return None;
                },
                Some(t) => {
                    let ghost t1 = t.deep_view();
                    self.var_context.insert(params[i].name, t.dup());
                    out.push(t);
                    assert(out.deep_view() =~= before.push(t1));
                },
            }
        }
        Some(out)
    }

    /// Types as far as they are known.
    fn find_each(&self, tys: &Vec<Type>) -> (r: Vec<Type>)
        ensures
            r.deep_view() == seen_all(self.deep_view(), tys.deep_view()),
    {
        let mut out: Vec<Type> = Vec::new();
        for i in 0..tys.len()
            invariant
                out@.len() == i,
                forall|j: int|
                    0 <= j < i ==> (#[trigger] out@[j]).deep_view() == typecheck::seen(
                        self.deep_view(),
                        tys.deep_view()[j],
                    ),
        {
            out.push(self.find(&tys[i]));
        }
        assert(out.deep_view() =~= seen_all(self.deep_view(), tys.deep_view()));
        out
    }

    /// Makes each of the types equal to `t`.
    fn unify_each(&mut self, tys: &Vec<Type>, t: &Type) -> (r: bool)
        ensures
            match equate_each(tys.deep_view(), 0, t.deep_view(), old(self).deep_view()) {
                Some(env) => r && final(self).deep_view() == env,
                None => !r,
            },
    {
        let ghost v = tys.deep_view();
        let ghost whole = equate_each(v, 0, t.deep_view(), self.deep_view());
        for i in 0..tys.len()
            invariant
                v == tys.deep_view(),
                whole == equate_each(v, 0, t.deep_view(), old(self).deep_view()),
                whole == equate_each(v, i as nat, t.deep_view(), self.deep_view()),
        {
            assert(v[i as int] == tys@[i as int].deep_view());
            if !self.unify(&tys[i], t) {
                return false;
            }
        }
        true
    }

    /// The type of folding a column.
    fn fold_type(&mut self, f: Type, a: &Type, column: &Type) -> (r: Option<Type>)
        ensures
            match folded(
                f.deep_view(),
                a.deep_view(),
                column.deep_view(),
                old(self).deep_view(),
            ) {
                Some((t, env)) => r matches Some(x) && x.deep_view() == t
                    && final(self).deep_view() == env,
                None => r is None,
            },
    {
        proof {
            types::lemma_ty_model(f);
        }
        match f {
            Type::Fun(tys, r) => {
                if self.unify(a, &r) && self.unify_each(&tys, column) {
                    Some(self.find(a))
                } else {
                    None
                }
            },
            _ => None,
        }
    }

    /// The type of an expression, or nothing where it has none; what is known
    /// then is of no use.
    fn infer(&mut self, e: &Expr) -> (r: Option<Type>)
        ensures
            match infer(e.deep_view(), old(self).deep_view()) {
                Some((t, env)) => r matches Some(x) && x.deep_view() == t
                    && final(self).deep_view() == env,
                None => r is None,
            },
        decreases e, 0nat,
    {
        proof {
            crate::runtime::ast::lemma_expr_model(*e);
            reveal(infer);
            reveal(infer_all);
            reveal(infer_args);
        }
        match e {
            Expr::Literal { val } => literal_ty(val),
            Expr::KeyVal { name, value } => self.infer(value),
            Expr::Tuple { val } => match self.infer_all(val) {
                None => None,
                Some(tys) => {
                    let r = Type::Vector(tys);
                    proof {
                        types::lemma_ty_model(r);
                    }
                    Some(r)
                },
            },
            Expr::Variable { name } => match self.var_context.get(name) {
                Some(t) => Some(t.dup()),
                None => match self.name_context.get(name) {
                    Some(t) => Some(t.dup()),
                    None => None,
                },
            },
            Expr::Unop { op, expr } => match self.infer(expr) {
                None => None,
                Some(t) => {
                    let want = unop_ty(*op);
                    if self.unify(&t, &want) {
                        Some(want)
                    } else {
                        None
                    }
                },
            },
            Expr::Binop { op, expr1, expr2 } => match self.infer(expr1) {
                None => None,
                Some(a) => match self.infer(expr2) {
                    None => None,
                    Some(b) => if self.check_operands(*op, &a, &b) {
                        Some(result_ty(*op))
                    } else {
                        None
                    },
                },
            },
            Expr::If { cond, expr1, expr2 } => match self.infer(cond) {
                None => None,
                Some(c) => if !self.unify(&c, &Type::Bool) {
                    None
                } else {
                    match self.infer(expr1) {
                        None => None,
                        Some(a) => match self.infer(expr2) {
                            None => None,
                            Some(b) => if self.unify(&a, &b) {
                                Some(self.find(&a))
                            } else {
                                None
                            },
                        },
                    }
                },
            },
            Expr::Func { params, body, return_ty } => if !all_differ(params) {
                None
            } else {
                let old_context = Table { entries: self.var_context.entries.dup() };
                match self.bind_param_types(params) {
                    None => None,
                    Some(tys) => match self.infer(body) {
                        None => None,
                        Some(t) => {
                            let r = Type::Fun(self.find_each(&tys), Box::new(self.find(&t)));
                            proof {
                                types::lemma_ty_model(r);
                            }
                            self.var_context = old_context;
                            Some(r)
                        },
                    },
                }
            },
            Expr::Call { func, args } => match self.infer(func) {
                None => None,
                Some(f) => {
                    proof {
                        types::lemma_ty_model(f);
                    }
                    match f {
                        Type::Fun(tys, r) => if tys.len() != args.len() {
                            None
                        } else if self.check_args(args, &tys) {
                            Some(self.find(&r))
                        } else {
                            None
                        },
                        other => match self.gen_typevar() {
                            None => None,
                            Some(r) => match self.infer_all(args) {
                                None => None,
                                Some(tys) => {
                                    let actual = Type::Fun(tys, Box::new(r.dup()));
                                    proof {
                                        types::lemma_ty_model(actual);
                                    }
                                    if self.unify(&other, &actual) {
                                        Some(self.find(&r))
                                    } else {
                                        None
                                    }
                                },
                            },
                        },
                    }
                },
            },
            Expr::Action(stmts) => Some(Type::Action),
            Expr::MemberAccess { .. } => self.gen_typevar(),
            Expr::Select { table_name, column_names, where_clause } => match self.schema(
                table_name,
            ) {
                None => None,
                Some(fields) => if !all_columns(&fields, column_names) {
                    None
                } else {
                    match self.infer(where_clause) {
                        None => None,
                        Some(c) => if c.same(&Type::Bool) {
                            Some(Type::Table(fields))
                        } else {
                            None
                        },
                    }
                },
            },
            Expr::Table { schema, records } => Some(Type::Table(schema.dup())),
            Expr::Fold { table_name, column_name, operation, identity } => match self.schema(
                table_name,
            ) {
                None => None,
                Some(fields) => match find_column(&fields, column_name) {
                    None => None,
                    Some(column) => match self.infer(operation) {
                        None => None,
                        Some(f) => match self.infer(identity) {
                            None => None,
                            Some(a) => self.fold_type(f, &a, &column),
                        },
                    },
                },
            },
        }
    }

    fn infer_all(&mut self, v: &Vec<Expr>) -> (r: Option<Vec<Type>>)
        ensures
            match infer_all(v.deep_view(), 0, seq![], old(self).deep_view()) {
                Some((tys, env)) => r matches Some(x) && x.deep_view() == tys
                    && final(self).deep_view() == env,
                None => r is None,
            },
        decreases v, 0nat,
    {
        let ghost t = v.deep_view();
        let ghost whole = infer_all(t, 0, seq![], self.deep_view());
        let mut out: Vec<Type> = Vec::new();
        assert(out.deep_view() =~= Seq::<TyM>::empty());
        for i in 0..v.len()
            invariant
                t == v.deep_view(),
                whole == infer_all(t, 0, seq![], old(self).deep_view()),
                whole == infer_all(t, i as nat, out.deep_view(), self.deep_view()),
        {
            assert(decreases_to!(v => v@[i as int]));
            assert(t[i as int] == v@[i as int].deep_view());
            proof {
                reveal(infer_all);
                reveal(infer);
            }
            let ghost before = out.deep_view();
            match self.infer(&v[i]) {
                None => {
                    return None;
                },
                Some(x) => {
                    let ghost x1 = x.deep_view();
                    out.push(x);
                    assert(out.deep_view() =~= before.push(x1));
                },
            }
        }
        proof {
            reveal(infer_all);
        }
        Some(out)
    }

    fn check_args(&mut self, v: &Vec<Expr>, tys: &Vec<Type>) -> (r: bool)
        requires
            tys@.len() == v@.len(),
        ensures
            match infer_args(v.deep_view(), 0, tys.deep_view(), old(self).deep_view()) {
                Some(env) => r && final(self).deep_view() == env,
                None => !r,
            },
        decreases v, 0nat,
    {
        let ghost t = v.deep_view();
        let ghost w = tys.deep_view();
        let ghost whole = infer_args(t, 0, w, self.deep_view());
        for i in 0..v.len()
            invariant
                t == v.deep_view(),
                w == tys.deep_view(),
                tys@.len() == v@.len(),
                whole == infer_args(t, 0, w, old(self).deep_view()),
                whole == infer_args(t, i as nat, w, self.deep_view()),
        {
            assert(decreases_to!(v => v@[i as int]));
            assert(t[i as int] == v@[i as int].deep_view());
            assert(w[i as int] == tys@[i as int].deep_view());
            proof {
                reveal(infer_args);
                reveal(infer);
            }
            match self.infer(&v[i]) {
                None => {
                    return false;
                },
                Some(x) => {
                    if !self.unify(&tys[i], &x) {
                        return false;
                    }
                },
            }
        }
        proof {
            reveal(infer_args);
        }
        true
    }

    /// The type of an expression, or nothing where it has none; what is known
    /// stays as it was then.
    pub fn try_infer_expr(&mut self, expr: &Expr) -> (r: Option<Type>)
        ensures
            match infer(expr.deep_view(), old(self).deep_view()) {
                Some((t, env)) => r matches Some(x) && x.deep_view() == t
                    && final(self).deep_view() == env,
                None => r is None && final(self).deep_view() == old(self).deep_view(),
            },
    {
        let mut work = self.dup();
        match work.infer(expr) {
            Some(t) => {
                *self = work;
                Some(t)
            },
            None => None,
        }
    }

    /// The type of an expression that has one.
    pub fn infer_expr(&mut self, expr: &Expr) -> (r: Type)
        requires
            infer(expr.deep_view(), old(self).deep_view()) is Some,
        ensures
            infer(expr.deep_view(), old(self).deep_view()) == Some(
                (r.deep_view(), final(self).deep_view()),
            ),
    {
        self.infer(expr).unwrap()
    }
}

/// Where a parameter gets no type, none after it does.
proof fn lemma_no_params(p: Seq<ParamM<Symbol>>, i: nat, n: nat, env: TypeEnvM)
    requires
        i <= n,
        with_params(p, i, env) is None,
    ensures
        with_params(p, n, env) is None,
    decreases n,
{
    if i < n {
        lemma_no_params(p, i, (n - 1) as nat, env);
    }
}

} // verus!
