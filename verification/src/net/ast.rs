//! Syntax trees as they travel on the wire, with texts in place of symbols.

use crate::net::types::ServiceNetId;
use crate::runtime::ast::model::{
    ActionStmtM, BinOpM, ExprM, FieldM, TableTypeM, UnOpM, ValueM,
};
use crate::runtime::table::Plain;
use crate::runtime::tt::{ParamM, TypeM};
use vstd::prelude::*;

verus! {

/// A column of a table.
#[derive(Debug, Clone, PartialEq)]
pub struct NetField {
    pub name: String,
    pub ty: NetTableType,
}

/// A type.
#[derive(Debug, PartialEq, Eq, Hash)]
pub enum NetType {
    Int,
    String,
    Bool,
    Unit,
    Tuple(Vec<NetType>),
    Func(Box<NetType>, Box<NetType>),
}

/// A parameter of a function.
#[derive(Debug, PartialEq, Eq, Hash)]
pub struct NetParam {
    pub name: String,
    pub ty: Option<NetType>,
}

/// A statement of an action.
#[derive(Debug, PartialEq)]
pub enum NetActionStmt {
    Let { name: String, ty: Option<NetType>, expr: NetExpr },
    Expr(NetExpr),
    Do(NetExpr),
    /// A check of a condition; the text is the condition as it was written.
    Assert(NetExpr, String),
    Assign { name: String, expr: NetExpr },
    Insert { row: NetExpr, table_name: String },
}

/// A value.
#[derive(Debug, PartialEq)]
pub enum NetValue {
    Int { val: i32 },
    Bool { val: bool },
    String { val: String },
    /// A function with the bindings it was made under.
    Closure {
        params: Vec<NetParam>,
        body: Box<NetExpr>,
        env: Vec<(String, NetValue)>,
        service_name: String,
        /// `None` means that no type is known; it does not mean `unit`.
        return_ty: Option<NetType>,
    },
    /// An action with the bindings it was made under.
    ActionClosure {
        stmts: Vec<NetActionStmt>,
        env: Vec<(String, NetValue)>,
        service_net_id: ServiceNetId,
    },
}

/// An expression.
#[derive(Debug, PartialEq)]
pub enum NetExpr {
    Literal { val: NetValue },
    Variable { name: String },
    Tuple { val: Vec<NetExpr> },
    KeyVal { name: String, value: Box<NetExpr> },
    Unop { op: NetUnOp, expr: Box<NetExpr> },
    Binop { op: NetBinOp, expr1: Box<NetExpr>, expr2: Box<NetExpr> },
    If { cond: Box<NetExpr>, expr1: Box<NetExpr>, expr2: Box<NetExpr> },
    Func { params: Vec<NetParam>, body: Box<NetExpr>, return_ty: Option<NetType> },
    Call { func: Box<NetExpr>, args: Vec<NetExpr> },
    Action(Vec<NetActionStmt>),
    MemberAccess { service_name: String, member_name: String },
    Select { table_name: String, column_names: Vec<String>, where_clause: Box<NetExpr> },
    Table { schema: Vec<NetField>, records: Vec<NetExpr> },
    Fold {
        table_name: String,
        column_name: String,
        operation: Box<NetExpr>,
        identity: Box<NetExpr>,
    },
}

/// A unary operator.
#[derive(Debug, Clone, Copy, PartialEq, Structural)]
pub enum NetUnOp {
    Neg,
    Not,
}

/// A binary operator.
#[derive(Debug, Clone, Copy, PartialEq, Structural)]
pub enum NetBinOp {
    Add,
    Sub,
    Mul,
    Div,
    Eq,
    Lt,
    Gt,
    And,
    Or,
}

/// The type of a table's column.
#[derive(Debug, Clone, Copy, PartialEq, Eq, Hash, Structural)]
pub enum NetTableType {
    Int,
    String,
    Bool,
}

impl DeepView for NetUnOp {
    type V = UnOpM;

    open spec fn deep_view(&self) -> UnOpM {
        match *self {
            NetUnOp::Neg => UnOpM::Neg,
            NetUnOp::Not => UnOpM::Not,
        }
    }
}

impl DeepView for NetBinOp {
    type V = BinOpM;

    open spec fn deep_view(&self) -> BinOpM {
        match *self {
            NetBinOp::Add => BinOpM::Add,
            NetBinOp::Sub => BinOpM::Sub,
            NetBinOp::Mul => BinOpM::Mul,
            NetBinOp::Div => BinOpM::Div,
            NetBinOp::Eq => BinOpM::Eq,
            NetBinOp::Lt => BinOpM::Lt,
            NetBinOp::Gt => BinOpM::Gt,
            NetBinOp::And => BinOpM::And,
            NetBinOp::Or => BinOpM::Or,
        }
    }
}

impl DeepView for NetTableType {
    type V = TableTypeM;

    open spec fn deep_view(&self) -> TableTypeM {
        match *self {
            NetTableType::String => TableTypeM::String,
            NetTableType::Int => TableTypeM::Int,
            NetTableType::Bool => TableTypeM::Bool,
        }
    }
}

impl DeepView for NetField {
    type V = FieldM<Seq<char>>;

    open spec fn deep_view(&self) -> FieldM<Seq<char>> {
        FieldM { name: self.name@, ty: self.ty.deep_view() }
    }
}

impl Plain for NetField {
    fn dup(&self) -> (r: Self) {
        NetField { name: self.name.clone(), ty: self.ty }
    }

    fn same(&self, other: &Self) -> (r: bool) {
        self.name == other.name && self.ty == other.ty
    }
}

/// What a type is.
pub open spec fn net_type_model(t: NetType) -> TypeM
    decreases t,
{
    match t {
        NetType::Int => TypeM::Int,
        NetType::String => TypeM::String,
        NetType::Bool => TypeM::Bool,
        NetType::Unit => TypeM::Unit,
        NetType::Tuple(v) => TypeM::Tuple(
            Seq::new(
                v@.len(),
                |i: int|
                    if 0 <= i < v@.len() {
                        net_type_model(v@[i])
                    } else {
                        arbitrary()
                    },
            ),
        ),
        NetType::Func(a, b) => TypeM::Func(
            Box::new(net_type_model(*a)),
            Box::new(net_type_model(*b)),
        ),
    }
}

impl DeepView for NetType {
    type V = TypeM;

    open spec fn deep_view(&self) -> TypeM {
        net_type_model(*self)
    }
}

impl DeepView for NetParam {
    type V = ParamM<Seq<char>>;

    open spec fn deep_view(&self) -> ParamM<Seq<char>> {
        ParamM { name: self.name@, ty: self.ty.deep_view() }
    }
}

/// The model of a tuple type is the tuple of its parts' models.
pub proof fn lemma_net_type_model(t: NetType)
    ensures
        t matches NetType::Tuple(v) ==> net_type_model(t) == TypeM::Tuple(v.deep_view()),
{
    if let NetType::Tuple(v) = t {
        assert(net_type_model(t)->Tuple_0 =~= v.deep_view());
    }
}

fn dup_type(t: &NetType) -> (r: NetType)
    ensures
        r.deep_view() == t.deep_view(),
    decreases t,
{
    let r = match t {
        NetType::Int => NetType::Int,
        NetType::String => NetType::String,
        NetType::Bool => NetType::Bool,
        NetType::Unit => NetType::Unit,
        NetType::Tuple(v) => NetType::Tuple(dup_types(v)),
        NetType::Func(a, b) => NetType::Func(Box::new(dup_type(a)), Box::new(dup_type(b))),
    };
    proof {
        lemma_net_type_model(*t);
        lemma_net_type_model(r);
    }
    r
}

fn dup_types(v: &Vec<NetType>) -> (r: Vec<NetType>)
    ensures
        r.deep_view() == v.deep_view(),
    decreases v,
{
    let mut out: Vec<NetType> = Vec::new();
    for i in 0..v.len()
        invariant
            out@.len() == i,
            forall|j: int| 0 <= j < i ==> (#[trigger] out@[j]).deep_view() == v@[j].deep_view(),
    {
        assert(decreases_to!(v => v@[i as int]));
        out.push(dup_type(&v[i]));
    }
    assert(out.deep_view() =~= v.deep_view());
    out
}

fn same_type(a: &NetType, b: &NetType) -> (r: bool)
    ensures
        r == (a.deep_view() == b.deep_view()),
    decreases a,
{
    proof {
        lemma_net_type_model(*a);
        lemma_net_type_model(*b);
    }
    match (a, b) {
        (NetType::Int, NetType::Int) => true,
        (NetType::String, NetType::String) => true,
        (NetType::Bool, NetType::Bool) => true,
        (NetType::Unit, NetType::Unit) => true,
        (NetType::Tuple(v), NetType::Tuple(w)) => same_types(v, w),
        (NetType::Func(a1, b1), NetType::Func(a2, b2)) => same_type(a1, a2) && same_type(b1, b2),
        _ => false,
    }
}

fn same_types(v: &Vec<NetType>, w: &Vec<NetType>) -> (r: bool)
    ensures
        r == (v.deep_view() == w.deep_view()),
    decreases v,
{
    if v.len() != w.len() {
        assert(v.deep_view().len() != w.deep_view().len());
        return false;
    }
    for i in 0..v.len()
        invariant
            v@.len() == w@.len(),
            forall|j: int| 0 <= j < i ==> (#[trigger] v@[j]).deep_view() == w@[j].deep_view(),
    {
        assert(decreases_to!(v => v@[i as int]));
        if !same_type(&v[i], &w[i]) {
            assert(v.deep_view()[i as int] != w.deep_view()[i as int]);
            return false;
        }
    }
    assert(v.deep_view() =~= w.deep_view());
    true
}

impl Clone for NetType {
    fn clone(&self) -> (r: Self)
        ensures
            r.deep_view() == self.deep_view(),
    {
        dup_type(self)
    }
}

impl Clone for NetParam {
    fn clone(&self) -> (r: Self)
        ensures
            r.deep_view() == self.deep_view(),
    {
        self.dup()
    }
}

impl Plain for NetType {
    fn dup(&self) -> (r: Self) {
        dup_type(self)
    }

    fn same(&self, other: &Self) -> (r: bool) {
        same_type(self, other)
    }
}

impl Plain for NetParam {
    fn dup(&self) -> (r: Self) {
        NetParam { name: self.name.clone(), ty: self.ty.dup() }
    }

    fn same(&self, other: &Self) -> (r: bool) {
        self.name == other.name && self.ty.same(&other.ty)
    }
}

/// What a value is.
#[verifier::opaque]
pub open spec fn net_value_model(x: NetValue) -> ValueM<Seq<char>>
    decreases x,
{
    match x {
        NetValue::Int { val } => ValueM::Int { val: val },
        NetValue::Bool { val } => ValueM::Bool { val: val },
        NetValue::String { val } => ValueM::String { val: val.deep_view() },
        NetValue::Closure { params, body, env, service_name, return_ty } => ValueM::Closure {
            params: params.deep_view(),
            body: Box::new(net_expr_model(*body)),
            env: Seq::new(
                env@.len(),
                |i: int|
                    if 0 <= i < env@.len() {
                        (env@[i].0.deep_view(), net_value_model(env@[i].1))
                    } else {
                        arbitrary()
                    },
            ),
            service_name: service_name.deep_view(),
            return_ty: return_ty.deep_view(),
        },
        NetValue::ActionClosure { stmts, env, service_net_id } => ValueM::ActionClosure { stmts: Seq::new(
                stmts@.len(),
                |i: int|
                    if 0 <= i < stmts@.len() {
                        net_stmt_model(stmts@[i])
                    } else {
                        arbitrary()
                    },
            ), env: Seq::new(
                env@.len(),
                |i: int|
                    if 0 <= i < env@.len() {
                        (env@[i].0.deep_view(), net_value_model(env@[i].1))
                    } else {
                        arbitrary()
                    },
            ), service_net_id: service_net_id.deep_view() },
    }
}

/// What an expression is.
#[verifier::opaque]
pub open spec fn net_expr_model(x: NetExpr) -> ExprM<Seq<char>>
    decreases x,
{
    match x {
        NetExpr::Literal { val } => ExprM::Literal { val: net_value_model(val) },
        NetExpr::Variable { name } => ExprM::Variable { name: name.deep_view() },
        NetExpr::Tuple { val } => ExprM::Tuple { val: Seq::new(
                val@.len(),
                |i: int|
                    if 0 <= i < val@.len() {
                        net_expr_model(val@[i])
                    } else {
                        arbitrary()
                    },
            ) },
        NetExpr::KeyVal { name, value } => ExprM::KeyVal {
            name: name.deep_view(),
            value: Box::new(net_expr_model(*value)),
        },
        NetExpr::Unop { op, expr } => ExprM::Unop {
            op: op.deep_view(),
            expr: Box::new(net_expr_model(*expr)),
        },
        NetExpr::Binop { op, expr1, expr2 } => ExprM::Binop {
            op: op.deep_view(),
            expr1: Box::new(net_expr_model(*expr1)),
            expr2: Box::new(net_expr_model(*expr2)),
        },
        NetExpr::If { cond, expr1, expr2 } => ExprM::If {
            cond: Box::new(net_expr_model(*cond)),
            expr1: Box::new(net_expr_model(*expr1)),
            expr2: Box::new(net_expr_model(*expr2)),
        },
        NetExpr::Func { params, body, return_ty } => ExprM::Func {
            params: params.deep_view(),
            body: Box::new(net_expr_model(*body)),
            return_ty: return_ty.deep_view(),
        },
        NetExpr::Call { func, args } => ExprM::Call { func: Box::new(net_expr_model(*func)), args: Seq::new(
                args@.len(),
                |i: int|
                    if 0 <= i < args@.len() {
                        net_expr_model(args@[i])
                    } else {
                        arbitrary()
                    },
            ) },
        NetExpr::Action(stmts) => ExprM::Action(Seq::new(
                stmts@.len(),
                |i: int|
                    if 0 <= i < stmts@.len() {
                        net_stmt_model(stmts@[i])
                    } else {
                        arbitrary()
                    },
            )),
        NetExpr::MemberAccess { service_name, member_name } => ExprM::MemberAccess {
            service_name: service_name.deep_view(),
            member_name: member_name.deep_view(),
        },
        NetExpr::Select { table_name, column_names, where_clause } => ExprM::Select {
            table_name: table_name.deep_view(),
            column_names: column_names.deep_view(),
            where_clause: Box::new(net_expr_model(*where_clause)),
        },
        NetExpr::Table { schema, records } => ExprM::Table { schema: schema.deep_view(), records: Seq::new(
                records@.len(),
                |i: int|
                    if 0 <= i < records@.len() {
                        net_expr_model(records@[i])
                    } else {
                        arbitrary()
                    },
            ) },
        NetExpr::Fold { table_name, column_name, operation, identity } => ExprM::Fold {
            table_name: table_name.deep_view(),
            column_name: column_name.deep_view(),
            operation: Box::new(net_expr_model(*operation)),
            identity: Box::new(net_expr_model(*identity)),
        },
    }
}

/// What a statement is.
#[verifier::opaque]
pub open spec fn net_stmt_model(x: NetActionStmt) -> ActionStmtM<Seq<char>>
    decreases x,
{
    match x {
        NetActionStmt::Let { name, ty, expr } => ActionStmtM::Let {
            name: name.deep_view(),
            ty: ty.deep_view(),
            expr: net_expr_model(expr),
        },
        NetActionStmt::Expr(e) => ActionStmtM::Expr(net_expr_model(e)),
        NetActionStmt::Do(e) => ActionStmtM::Do(net_expr_model(e)),
        NetActionStmt::Assert(e, text) => ActionStmtM::Assert(net_expr_model(e), text.deep_view()),
        NetActionStmt::Assign { name, expr } => ActionStmtM::Assign {
            name: name.deep_view(),
            expr: net_expr_model(expr),
        },
        NetActionStmt::Insert { row, table_name } => ActionStmtM::Insert {
            row: net_expr_model(row),
            table_name: table_name.deep_view(),
        },
    }
}

impl DeepView for NetValue {
    type V = ValueM<Seq<char>>;

    open spec fn deep_view(&self) -> ValueM<Seq<char>> {
        net_value_model(*self)
    }
}

impl DeepView for NetExpr {
    type V = ExprM<Seq<char>>;

    open spec fn deep_view(&self) -> ExprM<Seq<char>> {
        net_expr_model(*self)
    }
}

impl DeepView for NetActionStmt {
    type V = ActionStmtM<Seq<char>>;

    open spec fn deep_view(&self) -> ActionStmtM<Seq<char>> {
        net_stmt_model(*self)
    }
}

/// The model of a value, by the models of its parts.
pub proof fn lemma_net_value_model(x: NetValue)
    ensures
        net_value_model(x) == (match x {
            NetValue::Int { val } => ValueM::Int { val: val },
            NetValue::Bool { val } => ValueM::Bool { val: val },
            NetValue::String { val } => ValueM::String { val: val.deep_view() },
            NetValue::Closure { params, body, env, service_name, return_ty } => ValueM::Closure {
                params: params.deep_view(),
                body: Box::new(body.deep_view()),
                env: env.deep_view(),
                service_name: service_name.deep_view(),
                return_ty: return_ty.deep_view(),
            },
            NetValue::ActionClosure { stmts, env, service_net_id } => ValueM::ActionClosure {
                stmts: stmts.deep_view(),
                env: env.deep_view(),
                service_net_id: service_net_id.deep_view(),
            },
        }),
{
    reveal(net_value_model);
    reveal(net_expr_model);
    reveal(net_stmt_model);
    match x {
        NetValue::Closure { params, body, env, service_name, return_ty } => {
            assert(net_value_model(x)->Closure_env =~= env.deep_view());
        },
        NetValue::ActionClosure { stmts, env, service_net_id } => {
            assert(net_value_model(x)->ActionClosure_stmts =~= stmts.deep_view());
            assert(net_value_model(x)->ActionClosure_env =~= env.deep_view());
        },
        _ => {},
    }
}

/// The model of an expression, by the models of its parts.
pub proof fn lemma_net_expr_model(x: NetExpr)
    ensures
        net_expr_model(x) == (match x {
            NetExpr::Literal { val } => ExprM::Literal { val: val.deep_view() },
            NetExpr::Variable { name } => ExprM::Variable { name: name.deep_view() },
            NetExpr::Tuple { val } => ExprM::Tuple { val: val.deep_view() },
            NetExpr::KeyVal { name, value } => ExprM::KeyVal {
                name: name.deep_view(),
                value: Box::new(value.deep_view()),
            },
            NetExpr::Unop { op, expr } => ExprM::Unop {
                op: op.deep_view(),
                expr: Box::new(expr.deep_view()),
            },
            NetExpr::Binop { op, expr1, expr2 } => ExprM::Binop {
                op: op.deep_view(),
                expr1: Box::new(expr1.deep_view()),
                expr2: Box::new(expr2.deep_view()),
            },
            NetExpr::If { cond, expr1, expr2 } => ExprM::If {
                cond: Box::new(cond.deep_view()),
                expr1: Box::new(expr1.deep_view()),
                expr2: Box::new(expr2.deep_view()),
            },
            NetExpr::Func { params, body, return_ty } => ExprM::Func {
                params: params.deep_view(),
                body: Box::new(body.deep_view()),
                return_ty: return_ty.deep_view(),
            },
            NetExpr::Call { func, args } => ExprM::Call {
                func: Box::new(func.deep_view()),
                args: args.deep_view(),
            },
            NetExpr::Action(stmts) => ExprM::Action(stmts.deep_view()),
            NetExpr::MemberAccess { service_name, member_name } => ExprM::MemberAccess {
                service_name: service_name.deep_view(),
                member_name: member_name.deep_view(),
            },
            NetExpr::Select { table_name, column_names, where_clause } => ExprM::Select {
                table_name: table_name.deep_view(),
                column_names: column_names.deep_view(),
                where_clause: Box::new(where_clause.deep_view()),
            },
            NetExpr::Table { schema, records } => ExprM::Table {
                schema: schema.deep_view(),
                records: records.deep_view(),
            },
            NetExpr::Fold { table_name, column_name, operation, identity } => ExprM::Fold {
                table_name: table_name.deep_view(),
                column_name: column_name.deep_view(),
                operation: Box::new(operation.deep_view()),
                identity: Box::new(identity.deep_view()),
            },
        }),
{
    reveal(net_value_model);
    reveal(net_expr_model);
    reveal(net_stmt_model);
    match x {
        NetExpr::Tuple { val } => {
            assert(net_expr_model(x)->Tuple_val =~= val.deep_view());
        },
        NetExpr::Call { func, args } => {
            assert(net_expr_model(x)->Call_args =~= args.deep_view());
        },
        NetExpr::Action(stmts) => {
            assert(net_expr_model(x)->Action_0 =~= stmts.deep_view());
        },
        NetExpr::Table { schema, records } => {
            assert(net_expr_model(x)->Table_records =~= records.deep_view());
        },
        _ => {},
    }
}

/// The model of a statement, by the models of its parts.
pub proof fn lemma_net_stmt_model(x: NetActionStmt)
    ensures
        net_stmt_model(x) == (match x {
            NetActionStmt::Let { name, ty, expr } => ActionStmtM::Let {
                name: name.deep_view(),
                ty: ty.deep_view(),
                expr: expr.deep_view(),
            },
            NetActionStmt::Expr(e) => ActionStmtM::Expr(e.deep_view()),
            NetActionStmt::Do(e) => ActionStmtM::Do(e.deep_view()),
            NetActionStmt::Assert(e, text) => ActionStmtM::Assert(e.deep_view(), text.deep_view()),
            NetActionStmt::Assign { name, expr } => ActionStmtM::Assign {
                name: name.deep_view(),
                expr: expr.deep_view(),
            },
            NetActionStmt::Insert { row, table_name } => ActionStmtM::Insert {
                row: row.deep_view(),
                table_name: table_name.deep_view(),
            },
        }),
{
    reveal(net_value_model);
    reveal(net_expr_model);
    reveal(net_stmt_model);
    match x {
        _ => {},
    }
}

fn dup_value(x: &NetValue) -> (r: NetValue)
    ensures
        r.deep_view() == x.deep_view(),
    decreases x,
{
    let r = match x {
        NetValue::Int { val } => NetValue::Int { val: *val },
        NetValue::Bool { val } => NetValue::Bool { val: *val },
        NetValue::String { val } => NetValue::String { val: val.clone() },
        NetValue::Closure { params, body, env, service_name, return_ty } => NetValue::Closure {
            params: params.dup(),
            body: Box::new(dup_expr(body)),
            env: dup_env(env),
            service_name: service_name.clone(),
            return_ty: return_ty.dup(),
        },
        NetValue::ActionClosure { stmts, env, service_net_id } => NetValue::ActionClosure {
            stmts: dup_stmts(stmts),
            env: dup_env(env),
            service_net_id: service_net_id.dup(),
        },
    };
    proof {
        lemma_net_value_model(*x);
        lemma_net_value_model(r);
    }
    r
}

fn dup_expr(x: &NetExpr) -> (r: NetExpr)
    ensures
        r.deep_view() == x.deep_view(),
    decreases x,
{
    let r = match x {
        NetExpr::Literal { val } => NetExpr::Literal { val: dup_value(val) },
        NetExpr::Variable { name } => NetExpr::Variable { name: name.clone() },
        NetExpr::Tuple { val } => NetExpr::Tuple { val: dup_exprs(val) },
        NetExpr::KeyVal { name, value } => NetExpr::KeyVal {
            name: name.clone(),
            value: Box::new(dup_expr(value)),
        },
        NetExpr::Unop { op, expr } => NetExpr::Unop { op: *op, expr: Box::new(dup_expr(expr)) },
        NetExpr::Binop { op, expr1, expr2 } => NetExpr::Binop {
            op: *op,
            expr1: Box::new(dup_expr(expr1)),
            expr2: Box::new(dup_expr(expr2)),
        },
        NetExpr::If { cond, expr1, expr2 } => NetExpr::If {
            cond: Box::new(dup_expr(cond)),
            expr1: Box::new(dup_expr(expr1)),
            expr2: Box::new(dup_expr(expr2)),
        },
        NetExpr::Func { params, body, return_ty } => NetExpr::Func {
            params: params.dup(),
            body: Box::new(dup_expr(body)),
            return_ty: return_ty.dup(),
        },
        NetExpr::Call { func, args } => NetExpr::Call {
            func: Box::new(dup_expr(func)),
            args: dup_exprs(args),
        },
        NetExpr::Action(stmts) => NetExpr::Action(dup_stmts(stmts)),
        NetExpr::MemberAccess { service_name, member_name } => NetExpr::MemberAccess {
            service_name: service_name.clone(),
            member_name: member_name.clone(),
        },
        NetExpr::Select { table_name, column_names, where_clause } => NetExpr::Select {
            table_name: table_name.clone(),
            column_names: column_names.dup(),
            where_clause: Box::new(dup_expr(where_clause)),
        },
        NetExpr::Table { schema, records } => NetExpr::Table {
            schema: schema.dup(),
            records: dup_exprs(records),
        },
        NetExpr::Fold { table_name, column_name, operation, identity } => NetExpr::Fold {
            table_name: table_name.clone(),
            column_name: column_name.clone(),
            operation: Box::new(dup_expr(operation)),
            identity: Box::new(dup_expr(identity)),
        },
    };
    proof {
        lemma_net_expr_model(*x);
        lemma_net_expr_model(r);
    }
    r
}

fn dup_stmt(x: &NetActionStmt) -> (r: NetActionStmt)
    ensures
        r.deep_view() == x.deep_view(),
    decreases x,
{
    let r = match x {
        NetActionStmt::Let { name, ty, expr } => NetActionStmt::Let {
            name: name.clone(),
            ty: ty.dup(),
            expr: dup_expr(expr),
        },
        NetActionStmt::Expr(e) => NetActionStmt::Expr(dup_expr(e)),
        NetActionStmt::Do(e) => NetActionStmt::Do(dup_expr(e)),
        NetActionStmt::Assert(e, text) => NetActionStmt::Assert(dup_expr(e), text.clone()),
        NetActionStmt::Assign { name, expr } => NetActionStmt::Assign {
            name: name.clone(),
            expr: dup_expr(expr),
        },
        NetActionStmt::Insert { row, table_name } => NetActionStmt::Insert {
            row: dup_expr(row),
            table_name: table_name.clone(),
        },
    };
    proof {
        lemma_net_stmt_model(*x);
        lemma_net_stmt_model(r);
    }
    r
}

fn dup_exprs(v: &Vec<NetExpr>) -> (r: Vec<NetExpr>)
    ensures
        r.deep_view() == v.deep_view(),
    decreases v,
{
    let mut out: Vec<NetExpr> = Vec::new();
    for i in 0..v.len()
        invariant
            out@.len() == i,
            forall|j: int| 0 <= j < i ==> (#[trigger] out@[j]).deep_view() == v@[j].deep_view(),
    {
        assert(decreases_to!(v => v@[i as int]));
        out.push(dup_expr(&v[i]));
    }
    assert(out.deep_view() =~= v.deep_view());
    out
}

fn dup_stmts(v: &Vec<NetActionStmt>) -> (r: Vec<NetActionStmt>)
    ensures
        r.deep_view() == v.deep_view(),
    decreases v,
{
    let mut out: Vec<NetActionStmt> = Vec::new();
    for i in 0..v.len()
        invariant
            out@.len() == i,
            forall|j: int| 0 <= j < i ==> (#[trigger] out@[j]).deep_view() == v@[j].deep_view(),
    {
        assert(decreases_to!(v => v@[i as int]));
        out.push(dup_stmt(&v[i]));
    }
    assert(out.deep_view() =~= v.deep_view());
    out
}

fn dup_env(v: &Vec<(String, NetValue)>) -> (r: Vec<(String, NetValue)>)
    ensures
        r.deep_view() == v.deep_view(),
    decreases v,
{
    let mut out: Vec<(String, NetValue)> = Vec::new();
    for i in 0..v.len()
        invariant
            out@.len() == i,
            forall|j: int| 0 <= j < i ==> (#[trigger] out@[j]).deep_view() == v@[j].deep_view(),
    {
        assert(decreases_to!(v => v@[i as int]));
        assert(decreases_to!(v@[i as int] => v@[i as int].1));
        out.push((v[i].0.clone(), dup_value(&v[i].1)));
    }
    assert(out.deep_view() =~= v.deep_view());
    out
}

impl Clone for NetValue {
    fn clone(&self) -> (r: Self)
        ensures
            r.deep_view() == self.deep_view(),
    {
        dup_value(self)
    }
}

impl Clone for NetExpr {
    fn clone(&self) -> (r: Self)
        ensures
            r.deep_view() == self.deep_view(),
    {
        dup_expr(self)
    }
}

impl Clone for NetActionStmt {
    fn clone(&self) -> (r: Self)
        ensures
            r.deep_view() == self.deep_view(),
    {
        dup_stmt(self)
    }
}

} // verus!
