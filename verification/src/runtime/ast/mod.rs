//! Syntax trees.

use crate::net::types::ServiceNetId;
use crate::runtime::ast::model::{
    ActionStmtM, BinOpM, DeclM, ExprM, FieldM, StmtM, TableTypeM, UnOpM, ValueM,
};
use crate::runtime::interner::Symbol;
use crate::runtime::table::Plain;
use crate::runtime::tt::{Param, Type};
use vstd::prelude::*;

pub mod debug;
pub mod display;
pub mod laws;
pub mod model;
pub mod printer;
pub mod renaming;

verus! {

/// A unary operator.
#[derive(Debug, Clone, Copy, PartialEq, Eq, Hash, Structural)]
pub enum UnOp {
    Neg,
    Not,
}

/// A binary operator.
#[derive(Debug, Clone, Copy, PartialEq, Eq, Hash, Structural)]
pub enum BinOp {
    Add,
    Sub,
    Mul,
    Div,
    Eq,
    Lt,
    Gt,
    And,
    Or,
}

/// A statement of an action.
#[derive(Debug, PartialEq, Eq, Hash)]
pub enum ActionStmt {
    Let { name: Symbol, ty: Option<Type>, expr: Expr },
    Expr(Expr),
    Do(Expr),
    /// A check of a condition; the text is the condition as it was written.
    Assert(Expr, String),
    Assign { name: Symbol, expr: Expr },
    Insert { row: Expr, table_name: Symbol },
}

/// A statement of a program.
#[derive(Debug, PartialEq, Eq, Hash)]
pub enum Stmt {
    ActionStmt(ActionStmt),
    Update { service_name: Symbol, decls: Vec<Decl> },
    Connect { path: String, addr: String },
    /// An import; `explicit_path` tells whether the path was written out.
    Import { path: String, service_name: Symbol, explicit_path: bool },
    Service { name: Symbol, decls: Vec<Decl> },
    Test { service_name: Symbol, stmts: Vec<ActionStmt> },
    Watch { expr: Expr },
}

/// A value.
#[derive(Debug, PartialEq, Eq, Hash)]
pub enum Value {
    Int { val: i32 },
    Bool { val: bool },
    String { val: String },
    /// A function with the bindings it was made under.
    Closure {
        params: Vec<Param>,
        body: Box<Expr>,
        env: Vec<(Symbol, Value)>,
        service_name: Symbol,
        return_ty: Option<Type>,
    },
    /// An action with the bindings it was made under.
    ///
    /// It carries the identity of its service, so that it can run where that
    /// service has not been imported.
    ActionClosure {
        stmts: Vec<ActionStmt>,
        env: Vec<(Symbol, Value)>,
        service_net_id: ServiceNetId,
    },
}

/// An expression.
#[derive(Debug, PartialEq, Eq, Hash)]
pub enum Expr {
    Literal { val: Value },
    Variable { name: Symbol },
    Tuple { val: Vec<Expr> },
    KeyVal { name: Symbol, value: Box<Expr> },
    Unop { op: UnOp, expr: Box<Expr> },
    Binop { op: BinOp, expr1: Box<Expr>, expr2: Box<Expr> },
    If { cond: Box<Expr>, expr1: Box<Expr>, expr2: Box<Expr> },
    Func { params: Vec<Param>, body: Box<Expr>, return_ty: Option<Type> },
    Call { func: Box<Expr>, args: Vec<Expr> },
    Action(Vec<ActionStmt>),
    MemberAccess { service_name: Symbol, member_name: Symbol },
    Select { table_name: Symbol, column_names: Vec<Symbol>, where_clause: Box<Expr> },
    /// A table: records hold data alone, as in `{1, "A", 18}`; the rows of an
    /// insertion name their columns, as in `{id: 1, name: "A", age: 18}`.
    Table { schema: Vec<Field>, records: Vec<Expr> },
    Fold { table_name: Symbol, column_name: Symbol, operation: Box<Expr>, identity: Box<Expr> },
}

/// A declaration of a service.
#[derive(Debug, PartialEq, Eq, Hash)]
pub enum Decl {
    VarDecl { name: Symbol, ty: Option<Type>, val: Expr },
    DefDecl { name: Symbol, ty: Option<Type>, val: Expr, is_pub: bool },
    TableDecl { name: Symbol, fields: Vec<Field> },
}

/// A column of a table.
#[derive(Debug, Clone, PartialEq, Eq, Hash)]
pub struct Field {
    pub name: Symbol,
    pub ty: TableType,
}

/// The type of a table's column.
#[derive(Debug, Clone, Copy, PartialEq, Eq, Hash, Structural)]
pub enum TableType {
    String,
    Int,
    Bool,
}

impl DeepView for UnOp {
    type V = UnOpM;

    open spec fn deep_view(&self) -> UnOpM {
        match *self {
            UnOp::Neg => UnOpM::Neg,
            UnOp::Not => UnOpM::Not,
        }
    }
}

impl DeepView for BinOp {
    type V = BinOpM;

    open spec fn deep_view(&self) -> BinOpM {
        match *self {
            BinOp::Add => BinOpM::Add,
            BinOp::Sub => BinOpM::Sub,
            BinOp::Mul => BinOpM::Mul,
            BinOp::Div => BinOpM::Div,
            BinOp::Eq => BinOpM::Eq,
            BinOp::Lt => BinOpM::Lt,
            BinOp::Gt => BinOpM::Gt,
            BinOp::And => BinOpM::And,
            BinOp::Or => BinOpM::Or,
        }
    }
}

impl DeepView for TableType {
    type V = TableTypeM;

    open spec fn deep_view(&self) -> TableTypeM {
        match *self {
            TableType::String => TableTypeM::String,
            TableType::Int => TableTypeM::Int,
            TableType::Bool => TableTypeM::Bool,
        }
    }
}

impl DeepView for Field {
    type V = FieldM<Symbol>;

    open spec fn deep_view(&self) -> FieldM<Symbol> {
        FieldM { name: self.name, ty: self.ty.deep_view() }
    }
}

impl Plain for Field {
    fn dup(&self) -> (r: Self) {
        Field { name: self.name, ty: self.ty }
    }

    fn same(&self, other: &Self) -> (r: bool) {
        self.name == other.name && self.ty == other.ty
    }
}

impl DeepView for Decl {
    type V = DeclM<Symbol>;

    open spec fn deep_view(&self) -> DeclM<Symbol> {
        match *self {
            Decl::VarDecl { name, ty, val } => DeclM::VarDecl {
                name,
                ty: ty.deep_view(),
                val: val.deep_view(),
            },
            Decl::DefDecl { name, ty, val, is_pub } => DeclM::DefDecl {
                name,
                ty: ty.deep_view(),
                val: val.deep_view(),
                is_pub,
            },
            Decl::TableDecl { name, fields } => DeclM::TableDecl {
                name,
                fields: fields.deep_view(),
            },
        }
    }
}

impl Plain for Decl {
    fn dup(&self) -> (r: Self) {
        match self {
            Decl::VarDecl { name, ty, val } => Decl::VarDecl {
                name: *name,
                ty: ty.dup(),
                val: val.dup(),
            },
            Decl::DefDecl { name, ty, val, is_pub } => Decl::DefDecl {
                name: *name,
                ty: ty.dup(),
                val: val.dup(),
                is_pub: *is_pub,
            },
            Decl::TableDecl { name, fields } => Decl::TableDecl {
                name: *name,
                fields: fields.dup(),
            },
        }
    }

    fn same(&self, other: &Self) -> (r: bool) {
        match (self, other) {
            (
                Decl::VarDecl { name: n1, ty: t1, val: v1 },
                Decl::VarDecl { name: n2, ty: t2, val: v2 },
            ) => *n1 == *n2 && t1.same(t2) && v1.same(v2),
            (
                Decl::DefDecl { name: n1, ty: t1, val: v1, is_pub: p1 },
                Decl::DefDecl { name: n2, ty: t2, val: v2, is_pub: p2 },
            ) => *n1 == *n2 && t1.same(t2) && v1.same(v2) && *p1 == *p2,
            (
                Decl::TableDecl { name: n1, fields: f1 },
                Decl::TableDecl { name: n2, fields: f2 },
            ) => *n1 == *n2 && f1.same(f2),
            _ => false,
        }
    }
}

impl Clone for Decl {
    fn clone(&self) -> (r: Self)
        ensures
            r.deep_view() == self.deep_view(),
    {
        self.dup()
    }
}

impl DeepView for Stmt {
    type V = StmtM<Symbol>;

    open spec fn deep_view(&self) -> StmtM<Symbol> {
        match *self {
            Stmt::ActionStmt(s) => StmtM::ActionStmt(s.deep_view()),
            Stmt::Update { service_name, decls } => StmtM::Update {
                service_name,
                decls: decls.deep_view(),
            },
            Stmt::Connect { path, addr } => StmtM::Connect { path: path@, addr: addr@ },
            Stmt::Import { path, service_name, explicit_path } => StmtM::Import {
                path: path@,
                service_name,
                explicit_path,
            },
            Stmt::Service { name, decls } => StmtM::Service { name, decls: decls.deep_view() },
            Stmt::Test { service_name, stmts } => StmtM::Test {
                service_name,
                stmts: stmts.deep_view(),
            },
            Stmt::Watch { expr } => StmtM::Watch { expr: expr.deep_view() },
        }
    }
}

impl Clone for Stmt {
    fn clone(&self) -> (r: Self)
        ensures
            r.deep_view() == self.deep_view(),
    {
        match self {
            Stmt::ActionStmt(s) => Stmt::ActionStmt(s.dup()),
            Stmt::Update { service_name, decls } => Stmt::Update {
                service_name: *service_name,
                decls: decls.dup(),
            },
            Stmt::Connect { path, addr } => Stmt::Connect {
                path: path.clone(),
                addr: addr.clone(),
            },
            Stmt::Import { path, service_name, explicit_path } => Stmt::Import {
                path: path.clone(),
                service_name: *service_name,
                explicit_path: *explicit_path,
            },
            Stmt::Service { name, decls } => Stmt::Service { name: *name, decls: decls.dup() },
            Stmt::Test { service_name, stmts } => Stmt::Test {
                service_name: *service_name,
                stmts: stmts.dup(),
            },
            Stmt::Watch { expr } => Stmt::Watch { expr: expr.dup() },
        }
    }
}

/// What a value is.
#[verifier::opaque]
pub open spec fn value_model(x: Value) -> ValueM<Symbol>
    decreases x,
{
    match x {
        Value::Int { val } => ValueM::Int { val: val },
        Value::Bool { val } => ValueM::Bool { val: val },
        Value::String { val } => ValueM::String { val: val.deep_view() },
        Value::Closure { params, body, env, service_name, return_ty } => ValueM::Closure {
            params: params.deep_view(),
            body: Box::new(expr_model(*body)),
            env: Seq::new(
                env@.len(),
                |i: int|
                    if 0 <= i < env@.len() {
                        (env@[i].0.deep_view(), value_model(env@[i].1))
                    } else {
                        arbitrary()
                    },
            ),
            service_name: service_name.deep_view(),
            return_ty: return_ty.deep_view(),
        },
        Value::ActionClosure { stmts, env, service_net_id } => ValueM::ActionClosure { stmts: Seq::new(
                stmts@.len(),
                |i: int|
                    if 0 <= i < stmts@.len() {
                        stmt_model(stmts@[i])
                    } else {
                        arbitrary()
                    },
            ), env: Seq::new(
                env@.len(),
                |i: int|
                    if 0 <= i < env@.len() {
                        (env@[i].0.deep_view(), value_model(env@[i].1))
                    } else {
                        arbitrary()
                    },
            ), service_net_id: service_net_id.deep_view() },
    }
}

/// What an expression is.
#[verifier::opaque]
pub open spec fn expr_model(x: Expr) -> ExprM<Symbol>
    decreases x,
{
    match x {
        Expr::Literal { val } => ExprM::Literal { val: value_model(val) },
        Expr::Variable { name } => ExprM::Variable { name: name.deep_view() },
        Expr::Tuple { val } => ExprM::Tuple { val: Seq::new(
                val@.len(),
                |i: int|
                    if 0 <= i < val@.len() {
                        expr_model(val@[i])
                    } else {
                        arbitrary()
                    },
            ) },
        Expr::KeyVal { name, value } => ExprM::KeyVal {
            name: name.deep_view(),
            value: Box::new(expr_model(*value)),
        },
        Expr::Unop { op, expr } => ExprM::Unop {
            op: op.deep_view(),
            expr: Box::new(expr_model(*expr)),
        },
        Expr::Binop { op, expr1, expr2 } => ExprM::Binop {
            op: op.deep_view(),
            expr1: Box::new(expr_model(*expr1)),
            expr2: Box::new(expr_model(*expr2)),
        },
        Expr::If { cond, expr1, expr2 } => ExprM::If {
            cond: Box::new(expr_model(*cond)),
            expr1: Box::new(expr_model(*expr1)),
            expr2: Box::new(expr_model(*expr2)),
        },
        Expr::Func { params, body, return_ty } => ExprM::Func {
            params: params.deep_view(),
            body: Box::new(expr_model(*body)),
            return_ty: return_ty.deep_view(),
        },
        Expr::Call { func, args } => ExprM::Call { func: Box::new(expr_model(*func)), args: Seq::new(
                args@.len(),
                |i: int|
                    if 0 <= i < args@.len() {
                        expr_model(args@[i])
                    } else {
                        arbitrary()
                    },
            ) },
        Expr::Action(stmts) => ExprM::Action(Seq::new(
                stmts@.len(),
                |i: int|
                    if 0 <= i < stmts@.len() {
                        stmt_model(stmts@[i])
                    } else {
                        arbitrary()
                    },
            )),
        Expr::MemberAccess { service_name, member_name } => ExprM::MemberAccess {
            service_name: service_name.deep_view(),
            member_name: member_name.deep_view(),
        },
        Expr::Select { table_name, column_names, where_clause } => ExprM::Select {
            table_name: table_name.deep_view(),
            column_names: column_names.deep_view(),
            where_clause: Box::new(expr_model(*where_clause)),
        },
        Expr::Table { schema, records } => ExprM::Table { schema: schema.deep_view(), records: Seq::new(
                records@.len(),
                |i: int|
                    if 0 <= i < records@.len() {
                        expr_model(records@[i])
                    } else {
                        arbitrary()
                    },
            ) },
        Expr::Fold { table_name, column_name, operation, identity } => ExprM::Fold {
            table_name: table_name.deep_view(),
            column_name: column_name.deep_view(),
            operation: Box::new(expr_model(*operation)),
            identity: Box::new(expr_model(*identity)),
        },
    }
}

/// What a statement is.
#[verifier::opaque]
pub open spec fn stmt_model(x: ActionStmt) -> ActionStmtM<Symbol>
    decreases x,
{
    match x {
        ActionStmt::Let { name, ty, expr } => ActionStmtM::Let {
            name: name.deep_view(),
            ty: ty.deep_view(),
            expr: expr_model(expr),
        },
        ActionStmt::Expr(e) => ActionStmtM::Expr(expr_model(e)),
        ActionStmt::Do(e) => ActionStmtM::Do(expr_model(e)),
        ActionStmt::Assert(e, text) => ActionStmtM::Assert(expr_model(e), text.deep_view()),
        ActionStmt::Assign { name, expr } => ActionStmtM::Assign {
            name: name.deep_view(),
            expr: expr_model(expr),
        },
        ActionStmt::Insert { row, table_name } => ActionStmtM::Insert {
            row: expr_model(row),
            table_name: table_name.deep_view(),
        },
    }
}

impl DeepView for Value {
    type V = ValueM<Symbol>;

    open spec fn deep_view(&self) -> ValueM<Symbol> {
        value_model(*self)
    }
}

impl DeepView for Expr {
    type V = ExprM<Symbol>;

    open spec fn deep_view(&self) -> ExprM<Symbol> {
        expr_model(*self)
    }
}

impl DeepView for ActionStmt {
    type V = ActionStmtM<Symbol>;

    open spec fn deep_view(&self) -> ActionStmtM<Symbol> {
        stmt_model(*self)
    }
}

/// The model of a value, by the models of its parts.
pub proof fn lemma_value_model(x: Value)
    ensures
        value_model(x) == (match x {
            Value::Int { val } => ValueM::Int { val: val },
            Value::Bool { val } => ValueM::Bool { val: val },
            Value::String { val } => ValueM::String { val: val.deep_view() },
            Value::Closure { params, body, env, service_name, return_ty } => ValueM::Closure {
                params: params.deep_view(),
                body: Box::new(body.deep_view()),
                env: env.deep_view(),
                service_name: service_name.deep_view(),
                return_ty: return_ty.deep_view(),
            },
            Value::ActionClosure { stmts, env, service_net_id } => ValueM::ActionClosure {
                stmts: stmts.deep_view(),
                env: env.deep_view(),
                service_net_id: service_net_id.deep_view(),
            },
        }),
{
    reveal(value_model);
    reveal(expr_model);
    reveal(stmt_model);
    match x {
        Value::Closure { params, body, env, service_name, return_ty } => {
            assert(value_model(x)->Closure_env =~= env.deep_view());
        },
        Value::ActionClosure { stmts, env, service_net_id } => {
            assert(value_model(x)->ActionClosure_stmts =~= stmts.deep_view());
            assert(value_model(x)->ActionClosure_env =~= env.deep_view());
        },
        _ => {},
    }
}

/// The model of an expression, by the models of its parts.
pub proof fn lemma_expr_model(x: Expr)
    ensures
        expr_model(x) == (match x {
            Expr::Literal { val } => ExprM::Literal { val: val.deep_view() },
            Expr::Variable { name } => ExprM::Variable { name: name.deep_view() },
            Expr::Tuple { val } => ExprM::Tuple { val: val.deep_view() },
            Expr::KeyVal { name, value } => ExprM::KeyVal {
                name: name.deep_view(),
                value: Box::new(value.deep_view()),
            },
            Expr::Unop { op, expr } => ExprM::Unop {
                op: op.deep_view(),
                expr: Box::new(expr.deep_view()),
            },
            Expr::Binop { op, expr1, expr2 } => ExprM::Binop {
                op: op.deep_view(),
                expr1: Box::new(expr1.deep_view()),
                expr2: Box::new(expr2.deep_view()),
            },
            Expr::If { cond, expr1, expr2 } => ExprM::If {
                cond: Box::new(cond.deep_view()),
                expr1: Box::new(expr1.deep_view()),
                expr2: Box::new(expr2.deep_view()),
            },
            Expr::Func { params, body, return_ty } => ExprM::Func {
                params: params.deep_view(),
                body: Box::new(body.deep_view()),
                return_ty: return_ty.deep_view(),
            },
            Expr::Call { func, args } => ExprM::Call {
                func: Box::new(func.deep_view()),
                args: args.deep_view(),
            },
            Expr::Action(stmts) => ExprM::Action(stmts.deep_view()),
            Expr::MemberAccess { service_name, member_name } => ExprM::MemberAccess {
                service_name: service_name.deep_view(),
                member_name: member_name.deep_view(),
            },
            Expr::Select { table_name, column_names, where_clause } => ExprM::Select {
                table_name: table_name.deep_view(),
                column_names: column_names.deep_view(),
                where_clause: Box::new(where_clause.deep_view()),
            },
            Expr::Table { schema, records } => ExprM::Table {
                schema: schema.deep_view(),
                records: records.deep_view(),
            },
            Expr::Fold { table_name, column_name, operation, identity } => ExprM::Fold {
                table_name: table_name.deep_view(),
                column_name: column_name.deep_view(),
                operation: Box::new(operation.deep_view()),
                identity: Box::new(identity.deep_view()),
            },
        }),
{
    reveal(value_model);
    reveal(expr_model);
    reveal(stmt_model);
    match x {
        Expr::Tuple { val } => {
            assert(expr_model(x)->Tuple_val =~= val.deep_view());
        },
        Expr::Call { func, args } => {
            assert(expr_model(x)->Call_args =~= args.deep_view());
        },
        Expr::Action(stmts) => {
            assert(expr_model(x)->Action_0 =~= stmts.deep_view());
        },
        Expr::Table { schema, records } => {
            assert(expr_model(x)->Table_records =~= records.deep_view());
        },
        _ => {},
    }
}

/// The model of a statement, by the models of its parts.
pub proof fn lemma_stmt_model(x: ActionStmt)
    ensures
        stmt_model(x) == (match x {
            ActionStmt::Let { name, ty, expr } => ActionStmtM::Let {
                name: name.deep_view(),
                ty: ty.deep_view(),
                expr: expr.deep_view(),
            },
            ActionStmt::Expr(e) => ActionStmtM::Expr(e.deep_view()),
            ActionStmt::Do(e) => ActionStmtM::Do(e.deep_view()),
            ActionStmt::Assert(e, text) => ActionStmtM::Assert(e.deep_view(), text.deep_view()),
            ActionStmt::Assign { name, expr } => ActionStmtM::Assign {
                name: name.deep_view(),
                expr: expr.deep_view(),
            },
            ActionStmt::Insert { row, table_name } => ActionStmtM::Insert {
                row: row.deep_view(),
                table_name: table_name.deep_view(),
            },
        }),
{
    reveal(value_model);
    reveal(expr_model);
    reveal(stmt_model);
    match x {
        _ => {},
    }
}

fn dup_value(x: &Value) -> (r: Value)
    ensures
        r.deep_view() == x.deep_view(),
    decreases x,
{
    let r = match x {
        Value::Int { val } => Value::Int { val: *val },
        Value::Bool { val } => Value::Bool { val: *val },
        Value::String { val } => Value::String { val: val.clone() },
        Value::Closure { params, body, env, service_name, return_ty } => Value::Closure {
            params: params.dup(),
            body: Box::new(dup_expr(body)),
            env: dup_env(env),
            service_name: *service_name,
            return_ty: return_ty.dup(),
        },
        Value::ActionClosure { stmts, env, service_net_id } => Value::ActionClosure {
            stmts: dup_stmts(stmts),
            env: dup_env(env),
            service_net_id: service_net_id.dup(),
        },
    };
    proof {
        lemma_value_model(*x);
        lemma_value_model(r);
    }
    r
}

fn dup_expr(x: &Expr) -> (r: Expr)
    ensures
        r.deep_view() == x.deep_view(),
    decreases x,
{
    let r = match x {
        Expr::Literal { val } => Expr::Literal { val: dup_value(val) },
        Expr::Variable { name } => Expr::Variable { name: *name },
        Expr::Tuple { val } => Expr::Tuple { val: dup_exprs(val) },
        Expr::KeyVal { name, value } => Expr::KeyVal {
            name: *name,
            value: Box::new(dup_expr(value)),
        },
        Expr::Unop { op, expr } => Expr::Unop { op: *op, expr: Box::new(dup_expr(expr)) },
        Expr::Binop { op, expr1, expr2 } => Expr::Binop {
            op: *op,
            expr1: Box::new(dup_expr(expr1)),
            expr2: Box::new(dup_expr(expr2)),
        },
        Expr::If { cond, expr1, expr2 } => Expr::If {
            cond: Box::new(dup_expr(cond)),
            expr1: Box::new(dup_expr(expr1)),
            expr2: Box::new(dup_expr(expr2)),
        },
        Expr::Func { params, body, return_ty } => Expr::Func {
            params: params.dup(),
            body: Box::new(dup_expr(body)),
            return_ty: return_ty.dup(),
        },
        Expr::Call { func, args } => Expr::Call {
            func: Box::new(dup_expr(func)),
            args: dup_exprs(args),
        },
        Expr::Action(stmts) => Expr::Action(dup_stmts(stmts)),
        Expr::MemberAccess { service_name, member_name } => Expr::MemberAccess {
            service_name: *service_name,
            member_name: *member_name,
        },
        Expr::Select { table_name, column_names, where_clause } => Expr::Select {
            table_name: *table_name,
            column_names: column_names.dup(),
            where_clause: Box::new(dup_expr(where_clause)),
        },
        Expr::Table { schema, records } => Expr::Table {
            schema: schema.dup(),
            records: dup_exprs(records),
        },
        Expr::Fold { table_name, column_name, operation, identity } => Expr::Fold {
            table_name: *table_name,
            column_name: *column_name,
            operation: Box::new(dup_expr(operation)),
            identity: Box::new(dup_expr(identity)),
        },
    };
    proof {
        lemma_expr_model(*x);
        lemma_expr_model(r);
    }
    r
}

fn dup_stmt(x: &ActionStmt) -> (r: ActionStmt)
    ensures
        r.deep_view() == x.deep_view(),
    decreases x,
{
    let r = match x {
        ActionStmt::Let { name, ty, expr } => ActionStmt::Let {
            name: *name,
            ty: ty.dup(),
            expr: dup_expr(expr),
        },
        ActionStmt::Expr(e) => ActionStmt::Expr(dup_expr(e)),
        ActionStmt::Do(e) => ActionStmt::Do(dup_expr(e)),
        ActionStmt::Assert(e, text) => ActionStmt::Assert(dup_expr(e), text.clone()),
        ActionStmt::Assign { name, expr } => ActionStmt::Assign {
            name: *name,
            expr: dup_expr(expr),
        },
        ActionStmt::Insert { row, table_name } => ActionStmt::Insert {
            row: dup_expr(row),
            table_name: *table_name,
        },
    };
    proof {
        lemma_stmt_model(*x);
        lemma_stmt_model(r);
    }
    r
}

fn dup_exprs(v: &Vec<Expr>) -> (r: Vec<Expr>)
    ensures
        r.deep_view() == v.deep_view(),
    decreases v,
{
    let mut out: Vec<Expr> = Vec::new();
    for i in 0..v.len()
        invariant
            out@.len() == i,
            forall|j: int| 0 <= j < i ==> (#[trigger] out@[j]).deep_view() == v@[j].deep_view(),
    {
        assert(decreases_to!(v => v@[i as int]));
        out.push(dup_expr(&v[i]));
    }
    assert(out.deep_view() =~= v.deep_view());
    out
}

fn dup_stmts(v: &Vec<ActionStmt>) -> (r: Vec<ActionStmt>)
    ensures
        r.deep_view() == v.deep_view(),
    decreases v,
{
    let mut out: Vec<ActionStmt> = Vec::new();
    for i in 0..v.len()
        invariant
            out@.len() == i,
            forall|j: int| 0 <= j < i ==> (#[trigger] out@[j]).deep_view() == v@[j].deep_view(),
    {
        assert(decreases_to!(v => v@[i as int]));
        out.push(dup_stmt(&v[i]));
    }
    assert(out.deep_view() =~= v.deep_view());
    out
}

fn dup_env(v: &Vec<(Symbol, Value)>) -> (r: Vec<(Symbol, Value)>)
    ensures
        r.deep_view() == v.deep_view(),
    decreases v,
{
    let mut out: Vec<(Symbol, Value)> = Vec::new();
    for i in 0..v.len()
        invariant
            out@.len() == i,
            forall|j: int| 0 <= j < i ==> (#[trigger] out@[j]).deep_view() == v@[j].deep_view(),
    {
        assert(decreases_to!(v => v@[i as int]));
        assert(decreases_to!(v@[i as int] => v@[i as int].1));
        out.push((v[i].0, dup_value(&v[i].1)));
    }
    assert(out.deep_view() =~= v.deep_view());
    out
}

fn same_value(x: &Value, y: &Value) -> (r: bool)
    ensures
        r == (x.deep_view() == y.deep_view()),
    decreases x,
{
    proof {
        lemma_value_model(*x);
        lemma_value_model(*y);
    }
    match (x, y) {
        (Value::Int { val: val_a }, Value::Int { val: val_b }) => *val_a == *val_b,
        (Value::Bool { val: val_a }, Value::Bool { val: val_b }) => *val_a == *val_b,
        (Value::String { val: val_a }, Value::String { val: val_b }) => *val_a == *val_b,
        (
            Value::Closure {
                params: params_a,
                body: body_a,
                env: env_a,
                service_name: service_name_a,
                return_ty: return_ty_a,
            },
            Value::Closure {
                params: params_b,
                body: body_b,
                env: env_b,
                service_name: service_name_b,
                return_ty: return_ty_b,
            },
        ) => {
            params_a.same(params_b)
                && same_expr(body_a, body_b)
                && same_env(env_a, env_b)
                && *service_name_a == *service_name_b
                && return_ty_a.same(return_ty_b)
        },
        (
            Value::ActionClosure { stmts: stmts_a, env: env_a, service_net_id: service_net_id_a },
            Value::ActionClosure { stmts: stmts_b, env: env_b, service_net_id: service_net_id_b },
        ) => {
            same_stmts(stmts_a, stmts_b)
                && same_env(env_a, env_b)
                && service_net_id_a.same(service_net_id_b)
        },
        _ => false,
    }
}

fn same_expr(x: &Expr, y: &Expr) -> (r: bool)
    ensures
        r == (x.deep_view() == y.deep_view()),
    decreases x,
{
    proof {
        lemma_expr_model(*x);
        lemma_expr_model(*y);
    }
    match (x, y) {
        (Expr::Literal { val: val_a }, Expr::Literal { val: val_b }) => same_value(val_a, val_b),
        (Expr::Variable { name: name_a }, Expr::Variable { name: name_b }) => *name_a == *name_b,
        (Expr::Tuple { val: val_a }, Expr::Tuple { val: val_b }) => same_exprs(val_a, val_b),
        (
            Expr::KeyVal { name: name_a, value: value_a },
            Expr::KeyVal { name: name_b, value: value_b },
        ) => *name_a == *name_b && same_expr(value_a, value_b),
        (Expr::Unop { op: op_a, expr: expr_a }, Expr::Unop { op: op_b, expr: expr_b }) => *op_a == *op_b
            && same_expr(expr_a, expr_b),
        (
            Expr::Binop { op: op_a, expr1: expr1_a, expr2: expr2_a },
            Expr::Binop { op: op_b, expr1: expr1_b, expr2: expr2_b },
        ) => *op_a == *op_b && same_expr(expr1_a, expr1_b) && same_expr(expr2_a, expr2_b),
        (
            Expr::If { cond: cond_a, expr1: expr1_a, expr2: expr2_a },
            Expr::If { cond: cond_b, expr1: expr1_b, expr2: expr2_b },
        ) => same_expr(cond_a, cond_b) && same_expr(expr1_a, expr1_b) && same_expr(expr2_a, expr2_b),
        (
            Expr::Func { params: params_a, body: body_a, return_ty: return_ty_a },
            Expr::Func { params: params_b, body: body_b, return_ty: return_ty_b },
        ) => params_a.same(params_b) && same_expr(body_a, body_b) && return_ty_a.same(return_ty_b),
        (
            Expr::Call { func: func_a, args: args_a },
            Expr::Call { func: func_b, args: args_b },
        ) => same_expr(func_a, func_b) && same_exprs(args_a, args_b),
        (Expr::Action(stmts_a), Expr::Action(stmts_b)) => same_stmts(stmts_a, stmts_b),
        (
            Expr::MemberAccess { service_name: service_name_a, member_name: member_name_a },
            Expr::MemberAccess { service_name: service_name_b, member_name: member_name_b },
        ) => *service_name_a == *service_name_b && *member_name_a == *member_name_b,
        (
            Expr::Select {
                table_name: table_name_a,
                column_names: column_names_a,
                where_clause: where_clause_a,
            },
            Expr::Select {
                table_name: table_name_b,
                column_names: column_names_b,
                where_clause: where_clause_b,
            },
        ) => {
            *table_name_a == *table_name_b
                && column_names_a.same(column_names_b)
                && same_expr(where_clause_a, where_clause_b)
        },
        (
            Expr::Table { schema: schema_a, records: records_a },
            Expr::Table { schema: schema_b, records: records_b },
        ) => schema_a.same(schema_b) && same_exprs(records_a, records_b),
        (
            Expr::Fold {
                table_name: table_name_a,
                column_name: column_name_a,
                operation: operation_a,
                identity: identity_a,
            },
            Expr::Fold {
                table_name: table_name_b,
                column_name: column_name_b,
                operation: operation_b,
                identity: identity_b,
            },
        ) => {
            *table_name_a == *table_name_b
                && *column_name_a == *column_name_b
                && same_expr(operation_a, operation_b)
                && same_expr(identity_a, identity_b)
        },
        _ => false,
    }
}

fn same_stmt(x: &ActionStmt, y: &ActionStmt) -> (r: bool)
    ensures
        r == (x.deep_view() == y.deep_view()),
    decreases x,
{
    proof {
        lemma_stmt_model(*x);
        lemma_stmt_model(*y);
    }
    match (x, y) {
        (
            ActionStmt::Let { name: name_a, ty: ty_a, expr: expr_a },
            ActionStmt::Let { name: name_b, ty: ty_b, expr: expr_b },
        ) => *name_a == *name_b && ty_a.same(ty_b) && same_expr(expr_a, expr_b),
        (ActionStmt::Expr(e_a), ActionStmt::Expr(e_b)) => same_expr(e_a, e_b),
        (ActionStmt::Do(e_a), ActionStmt::Do(e_b)) => same_expr(e_a, e_b),
        (ActionStmt::Assert(e_a, text_a), ActionStmt::Assert(e_b, text_b)) => same_expr(e_a, e_b)
            && *text_a == *text_b,
        (
            ActionStmt::Assign { name: name_a, expr: expr_a },
            ActionStmt::Assign { name: name_b, expr: expr_b },
        ) => *name_a == *name_b && same_expr(expr_a, expr_b),
        (
            ActionStmt::Insert { row: row_a, table_name: table_name_a },
            ActionStmt::Insert { row: row_b, table_name: table_name_b },
        ) => same_expr(row_a, row_b) && *table_name_a == *table_name_b,
        _ => false,
    }
}

fn same_exprs(v: &Vec<Expr>, w: &Vec<Expr>) -> (r: bool)
        ensures
            r == (v.deep_view() == w.deep_view()),
        decreases v,
    {
        if v.len() != w.len() {
            assert(v.deep_view().len() != w.deep_view().len());
            return false;
        }
        for i in 0..v.len()
            invariant
                v@.len() == w@.len(),
                forall|j: int| 0 <= j < i ==> (#[trigger] v@[j]).deep_view() == w@[j].deep_view(),
        {
            assert(decreases_to!(v => v@[i as int]));
            if !same_expr(&v[i], &w[i]) {
                assert(v.deep_view()[i as int] != w.deep_view()[i as int]);
                return false;
            }
        }
        assert(v.deep_view() =~= w.deep_view());
        true
    }
    
    fn same_stmts(v: &Vec<ActionStmt>, w: &Vec<ActionStmt>) -> (r: bool)
        ensures
            r == (v.deep_view() == w.deep_view()),
        decreases v,
    {
        if v.len() != w.len() {
            assert(v.deep_view().len() != w.deep_view().len());
            return false;
        }
        for i in 0..v.len()
            invariant
                v@.len() == w@.len(),
                forall|j: int| 0 <= j < i ==> (#[trigger] v@[j]).deep_view() == w@[j].deep_view(),
        {
            assert(decreases_to!(v => v@[i as int]));
            if !same_stmt(&v[i], &w[i]) {
                assert(v.deep_view()[i as int] != w.deep_view()[i as int]);
                return false;
            }
        }
        assert(v.deep_view() =~= w.deep_view());
        true
    }
    
    fn same_env(v: &Vec<(Symbol, Value)>, w: &Vec<(Symbol, Value)>) -> (r: bool)
        ensures
            r == (v.deep_view() == w.deep_view()),
        decreases v,
    {
        if v.len() != w.len() {
            assert(v.deep_view().len() != w.deep_view().len());
            return false;
        }
        for i in 0..v.len()
            invariant
                v@.len() == w@.len(),
                forall|j: int| 0 <= j < i ==> (#[trigger] v@[j]).deep_view() == w@[j].deep_view(),
        {
            assert(decreases_to!(v => v@[i as int]));
            assert(decreases_to!(v@[i as int] => v@[i as int].1));
        if !(v[i].0 == w[i].0 && same_value(&v[i].1, &w[i].1)) {
                assert(v.deep_view()[i as int] != w.deep_view()[i as int]);
                return false;
            }
        }
        assert(v.deep_view() =~= w.deep_view());
        true
    }
    
    impl Clone for Value {
    fn clone(&self) -> (r: Self)
        ensures
            r.deep_view() == self.deep_view(),
    {
        dup_value(self)
    }
}

impl Plain for Value {
    fn dup(&self) -> (r: Self) {
        dup_value(self)
    }

    fn same(&self, other: &Self) -> (r: bool) {
        same_value(self, other)
    }
}

impl Clone for Expr {
    fn clone(&self) -> (r: Self)
        ensures
            r.deep_view() == self.deep_view(),
    {
        dup_expr(self)
    }
}

impl Plain for Expr {
    fn dup(&self) -> (r: Self) {
        dup_expr(self)
    }

    fn same(&self, other: &Self) -> (r: bool) {
        same_expr(self, other)
    }
}

impl Clone for ActionStmt {
    fn clone(&self) -> (r: Self)
        ensures
            r.deep_view() == self.deep_view(),
    {
        dup_stmt(self)
    }
}

impl Plain for ActionStmt {
    fn dup(&self) -> (r: Self) {
        dup_stmt(self)
    }

    fn same(&self, other: &Self) -> (r: bool) {
        same_stmt(self, other)
    }
}

} // verus!
