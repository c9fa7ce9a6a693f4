//! Mathematical models of syntax trees, with names of type `N`.
//!
//! A program held in memory has symbols for names; one on the wire has texts.
//! Both have a model of the same shape.

use crate::runtime::tt::{ParamM, TypeM};
use vstd::prelude::*;

verus! {

/// A unary operator.
pub enum UnOpM {
    Neg,
    Not,
}

/// A binary operator.
pub enum BinOpM {
    Add,
    Sub,
    Mul,
    Div,
    Eq,
    Lt,
    Gt,
    And,
    Or,
}

/// The type of a table's column.
pub enum TableTypeM {
    String,
    Int,
    Bool,
}

/// A column of a table.
pub struct FieldM<N> {
    pub name: N,
    pub ty: TableTypeM,
}

/// A value.
pub enum ValueM<N> {
    Int { val: i32 },
    Bool { val: bool },
    String { val: Seq<char> },
    Closure {
        params: Seq<ParamM<N>>,
        body: Box<ExprM<N>>,
        env: Seq<(N, ValueM<N>)>,
        service_name: N,
        return_ty: Option<TypeM>,
    },
    ActionClosure {
        stmts: Seq<ActionStmtM<N>>,
        env: Seq<(N, ValueM<N>)>,
        service_net_id: Seq<char>,
    },
}

/// An expression.
pub enum ExprM<N> {
    Literal { val: ValueM<N> },
    Variable { name: N },
    Tuple { val: Seq<ExprM<N>> },
    KeyVal { name: N, value: Box<ExprM<N>> },
    Unop { op: UnOpM, expr: Box<ExprM<N>> },
    Binop { op: BinOpM, expr1: Box<ExprM<N>>, expr2: Box<ExprM<N>> },
    If { cond: Box<ExprM<N>>, expr1: Box<ExprM<N>>, expr2: Box<ExprM<N>> },
    Func { params: Seq<ParamM<N>>, body: Box<ExprM<N>>, return_ty: Option<TypeM> },
    Call { func: Box<ExprM<N>>, args: Seq<ExprM<N>> },
    Action(Seq<ActionStmtM<N>>),
    MemberAccess { service_name: N, member_name: N },
    Select { table_name: N, column_names: Seq<N>, where_clause: Box<ExprM<N>> },
    Table { schema: Seq<FieldM<N>>, records: Seq<ExprM<N>> },
    Fold { table_name: N, column_name: N, operation: Box<ExprM<N>>, identity: Box<ExprM<N>> },
}

/// A statement of an action.
pub enum ActionStmtM<N> {
    Let { name: N, ty: Option<TypeM>, expr: ExprM<N> },
    Expr(ExprM<N>),
    Do(ExprM<N>),
    Assert(ExprM<N>, Seq<char>),
    Assign { name: N, expr: ExprM<N> },
    Insert { row: ExprM<N>, table_name: N },
}

/// A declaration of a service.
pub enum DeclM<N> {
    VarDecl { name: N, ty: Option<TypeM>, val: ExprM<N> },
    DefDecl { name: N, ty: Option<TypeM>, val: ExprM<N>, is_pub: bool },
    TableDecl { name: N, fields: Seq<FieldM<N>> },
}

/// A statement of a program.
pub enum StmtM<N> {
    ActionStmt(ActionStmtM<N>),
    Update { service_name: N, decls: Seq<DeclM<N>> },
    Connect { path: Seq<char>, addr: Seq<char> },
    Import { path: Seq<char>, service_name: N, explicit_path: bool },
    Service { name: N, decls: Seq<DeclM<N>> },
    Test { service_name: N, stmts: Seq<ActionStmtM<N>> },
    Watch { expr: ExprM<N> },
}

} // verus!
