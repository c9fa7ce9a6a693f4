//! Programs as indented trees.

use crate::runtime::ast::debug;
use crate::runtime::ast::debug::{binop_debug, quote, table_type_debug, unop_debug};
use crate::runtime::ast::display;
use crate::runtime::ast::display::{symbol_text, type_text};
use crate::runtime::ast::model::{ActionStmtM, DeclM, ExprM, FieldM, StmtM, ValueM};
use crate::runtime::ast::{ActionStmt, Decl, Expr, Field, Stmt, Value};
use crate::runtime::interner;
use crate::runtime::interner::{Interner, Symbol};
use crate::runtime::text;
use crate::runtime::tt::{Param, ParamM, Type, TypeM};
use vstd::prelude::*;
use vstd::string::*;

verus! {

/// How many spaces a level is indented by.
const INDENTATION: usize = 2;

/// Writes programs as indented trees.
pub struct AstPrinter<'a> {
    spaces: usize,
    interner: &'a Interner,
}

/// What a printer goes by: the names of symbols, and how many spaces a level is
/// indented by.
pub struct Printing {
    pub names: Seq<Seq<char>>,
    pub spaces: nat,
}

/// That many spaces.
pub open spec fn blank(n: nat) -> Seq<char> {
    Seq::new(n, |i: int| ' ')
}

/// The indentation of the next level.
pub open spec fn deeper(c: Printing, pad: Seq<char>) -> Seq<char> {
    pad + blank(c.spaces)
}

/// A symbol: its number and its name.
pub open spec fn symbol_with_name(c: Printing, s: Symbol) -> Seq<char> {
    display::show_symbol(s) + " (\""@ + interner::name_of(c.names, s) + "\")"@
}

/// A type that may be missing.
pub open spec fn type_or_none(t: Option<TypeM>) -> Seq<char> {
    match t {
        Some(t) => "Some("@ + display::show_type(t) + ")"@,
        None => "None"@,
    }
}

/// A parameter, with its type where it has one.
pub open spec fn named_param(c: Printing, p: ParamM<Symbol>) -> Seq<char> {
    match p.ty {
        Some(t) => symbol_with_name(c, p.name) + ": "@ + display::show_type(t),
        None => symbol_with_name(c, p.name),
    }
}

/// The first `n` parameters, each in quotes.
pub open spec fn named_params(c: Printing, v: Seq<ParamM<Symbol>>, n: nat) -> Seq<char>
    decreases n,
{
    if n == 0 || n > v.len() {
        seq![]
    } else if n == 1 {
        debug::quoted(named_param(c, v[n - 1]))
    } else {
        named_params(c, v, (n - 1) as nat) + ", "@ + debug::quoted(named_param(c, v[n - 1]))
    }
}

/// The first `n` symbols, each in quotes.
pub open spec fn named_symbols(c: Printing, v: Seq<Symbol>, n: nat) -> Seq<char>
    decreases n,
{
    if n == 0 || n > v.len() {
        seq![]
    } else if n == 1 {
        debug::quoted(symbol_with_name(c, v[n - 1]))
    } else {
        named_symbols(c, v, (n - 1) as nat) + ", "@ + debug::quoted(symbol_with_name(c, v[n - 1]))
    }
}

/// The line of a column.
pub open spec fn tree_field(c: Printing, x: FieldM<Symbol>, pad: Seq<char>) -> Seq<char> {
    pad + "Field: { name: "@ + symbol_with_name(c, x.name) + ", ty: "@ + debug::debug_table_type(
        x.ty,
    ) + " }\n"@
}

/// The lines of the first `n` columns.
pub open spec fn tree_fields(c: Printing, v: Seq<FieldM<Symbol>>, n: nat, pad: Seq<char>) -> Seq<
    char,
>
    decreases n,
{
    if n == 0 || n > v.len() {
        seq![]
    } else {
        tree_fields(c, v, (n - 1) as nat, pad) + tree_field(c, v[n - 1], pad)
    }
}

/// The tree of an expression.
#[verifier::opaque]
pub open spec fn tree_expr(c: Printing, x: ExprM<Symbol>, pad: Seq<char>) -> Seq<char>
    decreases x, 0nat,
{
    match x {
        ExprM::Literal { val } => pad + "Literal:"@ + "\n"@ + tree_value(c, val, deeper(c, pad)),
        ExprM::Variable { name } => pad
            + "Variable: { name: "@ + symbol_with_name(c, name) + " }"@ + "\n"@,
        ExprM::Tuple { val } => pad
            + "Tuple:"@ + "\n"@ + tree_exprs(c, val, val.len(), deeper(c, pad)),
        ExprM::KeyVal { name, value } => pad
            + "KeyVal: { name: "@ + symbol_with_name(c, name) + " }"@ + "\n"@
            + tree_expr(c, *value, deeper(c, pad)),
        ExprM::Unop { op, expr } => pad
            + "Unop: { op: "@ + debug::debug_unop(op) + " }"@ + "\n"@
            + tree_expr(c, *expr, deeper(c, pad)),
        ExprM::Binop { op, expr1, expr2 } => pad
            + "Binop: { op: "@ + debug::debug_binop(op) + " }"@ + "\n"@
            + tree_expr(c, *expr1, deeper(c, pad)) + tree_expr(c, *expr2, deeper(c, pad)),
        ExprM::If { cond, expr1, expr2 } => pad
            + "If:"@ + "\n"@ + tree_expr(c, *cond, deeper(c, pad))
            + tree_expr(c, *expr1, deeper(c, pad)) + tree_expr(c, *expr2, deeper(c, pad)),
        ExprM::Func { params, body, return_ty } => pad
            + "Func: { params: ["@ + named_params(c, params, params.len()) + "], return_ty: "@
            + type_or_none(return_ty) + " }"@ + "\n"@ + tree_expr(c, *body, deeper(c, pad)),
        ExprM::Call { func, args } => pad
            + "Call:"@ + "\n"@ + tree_expr(c, *func, deeper(c, pad))
            + tree_exprs(c, args, args.len(), deeper(c, pad)),
        ExprM::Action(stmts) => pad
            + "Action:"@ + "\n"@ + tree_stmts(c, stmts, stmts.len(), deeper(c, pad)),
        ExprM::MemberAccess { service_name, member_name } => pad
            + "MemberAccess: { service_name: "@ + symbol_with_name(c, service_name)
            + ", member_name: "@ + symbol_with_name(c, member_name) + " }"@ + "\n"@,
        ExprM::Select { table_name, column_names, where_clause } => pad
            + "Select: { table_name: "@ + symbol_with_name(c, table_name) + ", column_names: ["@
            + named_symbols(c, column_names, column_names.len()) + "] }"@ + "\n"@
            + tree_expr(c, *where_clause, deeper(c, pad)),
        ExprM::Table { schema, records } => pad
            + "Table:"@ + "\n"@ + tree_fields(c, schema, schema.len(), deeper(c, pad))
            + tree_exprs(c, records, records.len(), deeper(c, pad)),
        ExprM::Fold { table_name, column_name, operation, identity } => pad
            + "Fold: { table_name: "@ + symbol_with_name(c, table_name) + ", column_name: "@
            + symbol_with_name(c, column_name) + " }"@ + "\n"@
            + tree_expr(c, *operation, deeper(c, pad)) + tree_expr(c, *identity, deeper(c, pad)),
    }
}

/// The trees of the first `n` expressions.
#[verifier::opaque]
pub open spec fn tree_exprs(c: Printing, v: Seq<ExprM<Symbol>>, n: nat, pad: Seq<char>) -> Seq<char>
    decreases v, n,
{
    if n == 0 || n > v.len() {
        seq![]
    } else {
        tree_exprs(c, v, (n - 1) as nat, pad) + tree_expr(c, v[n - 1], pad)
    }
}

/// The tree of a value.
#[verifier::opaque]
pub open spec fn tree_value(c: Printing, x: ValueM<Symbol>, pad: Seq<char>) -> Seq<char>
    decreases x, 0nat,
{
    match x {
        ValueM::Int { val } => pad + "Int: "@ + text::decimal_int(val as int) + "\n"@,
        ValueM::Bool { val } => pad + "Bool: "@ + text::bool_numeral(val) + "\n"@,
        ValueM::String { val } => pad + "String: \""@ + val + "\""@ + "\n"@,
        ValueM::Closure { params, body, env, service_name, return_ty } => pad
            + "Closure: { params: ["@ + named_params(c, params, params.len()) + "], return_ty: "@
            + type_or_none(return_ty) + ", service_name: "@ + symbol_with_name(c, service_name)
            + " }"@ + "\n"@ + tree_expr(c, *body, deeper(c, pad)),
        ValueM::ActionClosure { stmts, env, service_net_id } => pad
            + "ActionClosure: { service_net_id: \""@ + service_net_id + "\" }"@ + "\n"@
            + tree_stmts(c, stmts, stmts.len(), deeper(c, pad)),
    }
}

/// The tree of a statement of an action.
#[verifier::opaque]
pub open spec fn tree_action_stmt(c: Printing, x: ActionStmtM<Symbol>, pad: Seq<char>) -> Seq<char>
    decreases x, 0nat,
{
    match x {
        ActionStmtM::Let { name, ty, expr } => pad
            + "Let: { name: "@ + symbol_with_name(c, name) + ", ty: "@ + type_or_none(ty) + " }"@
            + "\n"@ + tree_expr(c, expr, deeper(c, pad)),
        ActionStmtM::Expr(expr) => pad + "Expr:"@ + "\n"@ + tree_expr(c, expr, deeper(c, pad)),
        ActionStmtM::Do(expr) => pad + "Do:"@ + "\n"@ + tree_expr(c, expr, deeper(c, pad)),
        ActionStmtM::Assert(expr, written) => pad
            + "Assert: { text: "@ + debug::quoted(written) + " }"@ + "\n"@
            + tree_expr(c, expr, deeper(c, pad)),
        ActionStmtM::Assign { name, expr } => pad
            + "Assign: { name: "@ + symbol_with_name(c, name) + " }"@ + "\n"@
            + tree_expr(c, expr, deeper(c, pad)),
        ActionStmtM::Insert { row, table_name } => pad
            + "Insert: { table_name: "@ + symbol_with_name(c, table_name) + " }"@ + "\n"@
            + tree_expr(c, row, deeper(c, pad)),
    }
}

/// The trees of the first `n` statements.
#[verifier::opaque]
pub open spec fn tree_stmts(
    c: Printing,
    v: Seq<ActionStmtM<Symbol>>,
    n: nat,
    pad: Seq<char>,
) -> Seq<char>
    decreases v, n,
{
    if n == 0 || n > v.len() {
        seq![]
    } else {
        tree_stmts(c, v, (n - 1) as nat, pad) + tree_action_stmt(c, v[n - 1], pad)
    }
}

/// The tree of a declaration.
pub open spec fn tree_decl(c: Printing, x: DeclM<Symbol>, pad: Seq<char>) -> Seq<char>
{
    match x {
        DeclM::VarDecl { name, ty, val } => pad
            + "VarDecl: { name: "@ + symbol_with_name(c, name) + ", ty: "@ + type_or_none(ty)
            + " }"@ + "\n"@ + tree_expr(c, val, deeper(c, pad)),
        DeclM::DefDecl { name, ty, val, is_pub } => pad
            + "DefDecl: { name: "@ + symbol_with_name(c, name) + ", ty: "@ + type_or_none(ty)
            + ", is_pub: "@ + text::bool_numeral(is_pub) + " }"@ + "\n"@
            + tree_expr(c, val, deeper(c, pad)),
        DeclM::TableDecl { name, fields } => pad
            + "TableDecl: { name: "@ + symbol_with_name(c, name) + " }"@ + "\n"@
            + tree_fields(c, fields, fields.len(), deeper(c, pad)),
    }
}

/// The trees of the first `n` declarations.
pub open spec fn tree_decls(c: Printing, v: Seq<DeclM<Symbol>>, n: nat, pad: Seq<char>) -> Seq<char>
    decreases n,
{
    if n == 0 || n > v.len() {
        seq![]
    } else {
        tree_decls(c, v, (n - 1) as nat, pad) + tree_decl(c, v[n - 1], pad)
    }
}

/// The tree of a statement of a program.
pub open spec fn tree_stmt(c: Printing, x: StmtM<Symbol>, pad: Seq<char>) -> Seq<char>
{
    match x {
        StmtM::ActionStmt(action) => pad
            + "ActionStmt:"@ + "\n"@ + tree_action_stmt(c, action, deeper(c, pad)),
        StmtM::Update { service_name, decls } => pad
            + "Update: { service_name: "@ + symbol_with_name(c, service_name) + " }"@ + "\n"@
            + tree_decls(c, decls, decls.len(), deeper(c, pad)),
        StmtM::Connect { path, addr } => pad
            + "Connect: { path: \""@ + path + "\", addr: \""@ + addr + "\" }"@ + "\n"@,
        StmtM::Import { path, service_name, explicit_path } => pad
            + "Import: { path: \""@ + path + "\", service_name: "@
            + symbol_with_name(c, service_name) + ", explicit_path: "@
            + text::bool_numeral(explicit_path) + " }"@ + "\n"@,
        StmtM::Service { name, decls } => pad
            + "Service: { name: "@ + symbol_with_name(c, name) + " }"@ + "\n"@
            + tree_decls(c, decls, decls.len(), deeper(c, pad)),
        StmtM::Test { service_name, stmts } => pad
            + "Test: { service_name: "@ + symbol_with_name(c, service_name) + " }"@ + "\n"@
            + tree_stmts(c, stmts, stmts.len(), deeper(c, pad)),
        StmtM::Watch { expr } => pad + "Watch:"@ + "\n"@ + tree_expr(c, expr, deeper(c, pad)),
    }
}

/// The trees of the first `n` statements of a program.
pub open spec fn tree_program(
    c: Printing,
    v: Seq<StmtM<Symbol>>,
    n: nat,
    pad: Seq<char>,
) -> Seq<char>
    decreases n,
{
    if n == 0 || n > v.len() {
        seq![]
    } else {
        tree_program(c, v, (n - 1) as nat, pad) + tree_stmt(c, v[n - 1], pad)
    }
}

impl<'a> AstPrinter<'a> {
    /// What the printer goes by.
    pub closed spec fn printing(&self) -> Printing {
        Printing { names: self.interner@, spaces: self.spaces as nat }
    }

    /// A printer with the usual indentation.
    pub fn new(interner: &'a Interner) -> (r: Self)
        ensures
            r.printing() == (Printing { names: interner@, spaces: 2 }),
    {
        AstPrinter { spaces: INDENTATION, interner }
    }

    /// A printer that indents each level by `spaces`.
    pub fn with_spaces(spaces: usize, interner: &'a Interner) -> (r: Self)
        ensures
            r.printing() == (Printing { names: interner@, spaces: spaces as nat }),
    {
        AstPrinter { spaces, interner }
    }

    /// A symbol, with its name.
    pub fn format_symbol(&self, sym: Symbol) -> (r: String)
        ensures
            r@ == symbol_with_name(self.printing(), sym),
    {
        let mut out = symbol_text(sym);
        out.append(" (\"");
        out.append(self.interner.get(sym).as_str());
        out.append("\")");
        out
    }

    /// A type that may be missing.
    pub fn format_type_opt(&self, ty: &Option<Type>) -> (r: String)
        ensures
            r@ == type_or_none(ty.deep_view()),
    {
        match ty {
            Some(t) => text::cat3("Some(", type_text(t).as_str(), ")"),
            None => "None".to_owned(),
        }
    }

    /// The indentation of a level.
    fn indent(&self, indent: usize) -> (r: String)
        ensures
            r@ == blank((indent * self.printing().spaces) as nat),
    {
        let mut out = String::new();
        assert(out@ =~= blank((0 * self.printing().spaces) as nat));
        for i in 0..indent
            invariant
                out@ == blank((i * self.printing().spaces) as nat),
        {
            let ghost before = out@;
            out = self.deeper(out.as_str());
            proof {
                let k = self.printing().spaces as int;
                assert((i + 1) * k == i * k + k) by (nonlinear_arith);
                assert(i * k >= 0) by (nonlinear_arith)
                    requires
                        i >= 0,
                        k >= 0,
                ;
                assert(before + blank(k as nat) =~= blank((i * k + k) as nat));
            }
        }
        out
    }

    /// The indentation of the next level.
    fn deeper(&self, pad: &str) -> (r: String)
        ensures
            r@ == deeper(self.printing(), pad@),
    {
        let mut out = pad.to_owned();
        assert(out@ =~= pad@ + blank(0));
        for i in 0..self.spaces
            invariant
                out@ == pad@ + blank(i as nat),
        {
            let ghost before = out@;
            out.push(' ');
            assert(before.push(' ') =~= pad@ + blank((i + 1) as nat));
        }
        out
    }

    fn params(&self, v: &Vec<Param>) -> (r: String)
        ensures
            r@ == named_params(self.printing(), v.deep_view(), v.deep_view().len()),
    {
        let ghost t = v.deep_view();
        let mut out = String::new();
        assert(out@ =~= Seq::<char>::empty());
        for i in 0..v.len()
            invariant
                t == v.deep_view(),
                out@ == named_params(self.printing(), t, i as nat),
        {
            assert(t[i as int] == v@[i as int].deep_view());
            let plain = match &v[i].ty {
                Some(ty) => text::cat3(
                    self.format_symbol(v[i].name).as_str(),
                    ": ",
                    type_text(ty).as_str(),
                ),
                None => self.format_symbol(v[i].name),
            };
            let one = quote(plain.as_str());
            if i == 0 {
                out = one;
            } else {
                out.append(", ");
                out.append(one.as_str());
            }
        }
        out
    }

    fn symbols(&self, v: &Vec<Symbol>) -> (r: String)
        ensures
            r@ == named_symbols(self.printing(), v.deep_view(), v.deep_view().len()),
    {
        let ghost t = v.deep_view();
        let mut out = String::new();
        assert(out@ =~= Seq::<char>::empty());
        for i in 0..v.len()
            invariant
                t == v.deep_view(),
                out@ == named_symbols(self.printing(), t, i as nat),
        {
            assert(t[i as int] == v@[i as int]);
            let one = quote(self.format_symbol(v[i]).as_str());
            if i == 0 {
                out = one;
            } else {
                out.append(", ");
                out.append(one.as_str());
            }
        }
        out
    }

    fn fields(&self, v: &Vec<Field>, pad: &str) -> (r: String)
        ensures
            r@ == tree_fields(self.printing(), v.deep_view(), v.deep_view().len(), pad@),
    {
        let ghost t = v.deep_view();
        let mut out = String::new();
        assert(out@ =~= Seq::<char>::empty());
        for i in 0..v.len()
            invariant
                t == v.deep_view(),
                out@ == tree_fields(self.printing(), t, i as nat, pad@),
        {
            assert(t[i as int] == v@[i as int].deep_view());
            let mut one = pad.to_owned();
            one.append("Field: { name: ");
            one.append(self.format_symbol(v[i].name).as_str());
            one.append(", ty: ");
            one.append(table_type_debug(v[i].ty).as_str());
            one.append(" }\n");
            out.append(one.as_str());
        }
        out
    }

    /// The trees of a program.
    pub fn print_program(&self, stmts: &Vec<Stmt>) -> (r: String)
        ensures
            r@ == tree_program(
                self.printing(),
                stmts.deep_view(),
                stmts.deep_view().len(),
                Seq::empty(),
            ),
    {
        let ghost t = stmts.deep_view();
        let mut out = String::new();
        let pad = String::new();
        assert(out@ =~= Seq::<char>::empty());
        assert(pad@ =~= Seq::<char>::empty());
        for i in 0..stmts.len()
            invariant
                t == stmts.deep_view(),
                pad@ == Seq::<char>::empty(),
                out@ == tree_program(self.printing(), t, i as nat, Seq::empty()),
        {
            assert(t[i as int] == stmts@[i as int].deep_view());
            out.append(self.stmt(&stmts[i], pad.as_str()).as_str());
        }
        out
    }

    /// The tree of a statement of a program, at level `indent`.
    pub fn print_stmt(&self, stmt: &Stmt, indent: usize) -> (r: String)
        ensures
            r@ == tree_stmt(
                self.printing(),
                stmt.deep_view(),
                blank((indent * self.printing().spaces) as nat),
            ),
    {
        self.stmt(stmt, self.indent(indent).as_str())
    }

    /// The tree of a declaration, at level `indent`.
    pub fn print_decl(&self, decl: &Decl, indent: usize) -> (r: String)
        ensures
            r@ == tree_decl(
                self.printing(),
                decl.deep_view(),
                blank((indent * self.printing().spaces) as nat),
            ),
    {
        self.decl(decl, self.indent(indent).as_str())
    }

    /// The tree of a statement of an action, at level `indent`.
    pub fn print_action_stmt(&self, stmt: &ActionStmt, indent: usize) -> (r: String)
        ensures
            r@ == tree_action_stmt(
                self.printing(),
                stmt.deep_view(),
                blank((indent * self.printing().spaces) as nat),
            ),
    {
        self.action_stmt(stmt, self.indent(indent).as_str())
    }

    /// The tree of an expression, at level `indent`.
    pub fn print_expr(&self, expr: &Expr, indent: usize) -> (r: String)
        ensures
            r@ == tree_expr(
                self.printing(),
                expr.deep_view(),
                blank((indent * self.printing().spaces) as nat),
            ),
    {
        self.expr(expr, self.indent(indent).as_str())
    }

    /// The tree of a value, at level `indent`.
    pub fn print_value(&self, val: &Value, indent: usize) -> (r: String)
        ensures
            r@ == tree_value(
                self.printing(),
                val.deep_view(),
                blank((indent * self.printing().spaces) as nat),
            ),
    {
        self.value(val, self.indent(indent).as_str())
    }
}

impl<'a> AstPrinter<'a> {
    fn expr(&self, x: &Expr, pad: &str) -> (r: String)
        ensures
            r@ == tree_expr(self.printing(), x.deep_view(), pad@),
        decreases x, 0nat,
    {
        proof {
            crate::runtime::ast::lemma_expr_model(*x);
            reveal(tree_expr);
            reveal(tree_value);
            reveal(tree_action_stmt);
            reveal(tree_exprs);
            reveal(tree_stmts);
        }
        let inner = self.deeper(pad);
        let mut out = pad.to_owned();
        match x {
            Expr::Literal { val } => {
                out.append("Literal:");
                out.append("\n");
                out.append(self.value(val, inner.as_str()).as_str());
            },
            Expr::Variable { name } => {
                out.append("Variable: { name: ");
                out.append(self.format_symbol(*name).as_str());
                out.append(" }");
                out.append("\n");
            },
            Expr::Tuple { val } => {
                out.append("Tuple:");
                out.append("\n");
                out.append(self.exprs(val, inner.as_str()).as_str());
            },
            Expr::KeyVal { name, value } => {
                out.append("KeyVal: { name: ");
                out.append(self.format_symbol(*name).as_str());
                out.append(" }");
                out.append("\n");
                out.append(self.expr(value, inner.as_str()).as_str());
            },
            Expr::Unop { op, expr } => {
                out.append("Unop: { op: ");
                out.append(unop_debug(*op).as_str());
                out.append(" }");
                out.append("\n");
                out.append(self.expr(expr, inner.as_str()).as_str());
            },
            Expr::Binop { op, expr1, expr2 } => {
                out.append("Binop: { op: ");
                out.append(binop_debug(*op).as_str());
                out.append(" }");
                out.append("\n");
                out.append(self.expr(expr1, inner.as_str()).as_str());
                out.append(self.expr(expr2, inner.as_str()).as_str());
            },
            Expr::If { cond, expr1, expr2 } => {
                out.append("If:");
                out.append("\n");
                out.append(self.expr(cond, inner.as_str()).as_str());
                out.append(self.expr(expr1, inner.as_str()).as_str());
                out.append(self.expr(expr2, inner.as_str()).as_str());
            },
            Expr::Func { params, body, return_ty } => {
                out.append("Func: { params: [");
                out.append(self.params(params).as_str());
                out.append("], return_ty: ");
                out.append(self.format_type_opt(return_ty).as_str());
                out.append(" }");
                out.append("\n");
                out.append(self.expr(body, inner.as_str()).as_str());
            },
            Expr::Call { func, args } => {
                out.append("Call:");
                out.append("\n");
                out.append(self.expr(func, inner.as_str()).as_str());
                out.append(self.exprs(args, inner.as_str()).as_str());
            },
            Expr::Action(stmts) => {
                out.append("Action:");
                out.append("\n");
                out.append(self.action_stmts(stmts, inner.as_str()).as_str());
            },
            Expr::MemberAccess { service_name, member_name } => {
                out.append("MemberAccess: { service_name: ");
                out.append(self.format_symbol(*service_name).as_str());
                out.append(", member_name: ");
                out.append(self.format_symbol(*member_name).as_str());
                out.append(" }");
                out.append("\n");
            },
            Expr::Select { table_name, column_names, where_clause } => {
                out.append("Select: { table_name: ");
                out.append(self.format_symbol(*table_name).as_str());
                out.append(", column_names: [");
                out.append(self.symbols(column_names).as_str());
                out.append("] }");
                out.append("\n");
                out.append(self.expr(where_clause, inner.as_str()).as_str());
            },
            Expr::Table { schema, records } => {
                out.append("Table:");
                out.append("\n");
                out.append(self.fields(schema, inner.as_str()).as_str());
                out.append(self.exprs(records, inner.as_str()).as_str());
            },
            Expr::Fold { table_name, column_name, operation, identity } => {
                out.append("Fold: { table_name: ");
                out.append(self.format_symbol(*table_name).as_str());
                out.append(", column_name: ");
                out.append(self.format_symbol(*column_name).as_str());
                out.append(" }");
                out.append("\n");
                out.append(self.expr(operation, inner.as_str()).as_str());
                out.append(self.expr(identity, inner.as_str()).as_str());
            },
        }
        out
    }

    fn exprs(&self, v: &Vec<Expr>, pad: &str) -> (r: String)
        ensures
            r@ == tree_exprs(self.printing(), v.deep_view(), v.deep_view().len(), pad@),
        decreases v, 0nat,
    {
        let ghost t = v.deep_view();
        let mut out = String::new();
        proof {
            reveal(tree_expr);
            reveal(tree_value);
            reveal(tree_action_stmt);
            reveal(tree_exprs);
            reveal(tree_stmts);
        }
        assert(out@ =~= Seq::<char>::empty());
        for i in 0..v.len()
            invariant
                t == v.deep_view(),
                out@ == tree_exprs(self.printing(), t, i as nat, pad@),
        {
            assert(decreases_to!(v => v@[i as int]));
            assert(t[i as int] == v@[i as int].deep_view());
            proof {
                reveal(tree_expr);
                reveal(tree_value);
                reveal(tree_action_stmt);
                reveal(tree_exprs);
                reveal(tree_stmts);
            }
            out.append(self.expr(&v[i], pad).as_str());
        }
        out
    }

    fn value(&self, x: &Value, pad: &str) -> (r: String)
        ensures
            r@ == tree_value(self.printing(), x.deep_view(), pad@),
        decreases x, 0nat,
    {
        proof {
            crate::runtime::ast::lemma_value_model(*x);
            reveal(tree_expr);
            reveal(tree_value);
            reveal(tree_action_stmt);
            reveal(tree_exprs);
            reveal(tree_stmts);
        }
        let inner = self.deeper(pad);
        let mut out = pad.to_owned();
        match x {
            Value::Int { val } => {
                out.append("Int: ");
                out.append(text::i32_text(*val).as_str());
                out.append("\n");
            },
            Value::Bool { val } => {
                out.append("Bool: ");
                out.append(text::bool_text(*val).as_str());
                out.append("\n");
            },
            Value::String { val } => {
                out.append("String: \"");
                out.append(val.as_str());
                out.append("\"");
                out.append("\n");
            },
            Value::Closure { params, body, env, service_name, return_ty } => {
                out.append("Closure: { params: [");
                out.append(self.params(params).as_str());
                out.append("], return_ty: ");
                out.append(self.format_type_opt(return_ty).as_str());
                out.append(", service_name: ");
                out.append(self.format_symbol(*service_name).as_str());
                out.append(" }");
                out.append("\n");
                out.append(self.expr(body, inner.as_str()).as_str());
            },
            Value::ActionClosure { stmts, env, service_net_id } => {
                out.append("ActionClosure: { service_net_id: \"");
                out.append(service_net_id.0.as_str());
                out.append("\" }");
                out.append("\n");
                out.append(self.action_stmts(stmts, inner.as_str()).as_str());
            },
        }
        out
    }

    fn action_stmt(&self, x: &ActionStmt, pad: &str) -> (r: String)
        ensures
            r@ == tree_action_stmt(self.printing(), x.deep_view(), pad@),
        decreases x, 0nat,
    {
        proof {
            crate::runtime::ast::lemma_stmt_model(*x);
            reveal(tree_expr);
            reveal(tree_value);
            reveal(tree_action_stmt);
            reveal(tree_exprs);
            reveal(tree_stmts);
        }
        let inner = self.deeper(pad);
        let mut out = pad.to_owned();
        match x {
            ActionStmt::Let { name, ty, expr } => {
                out.append("Let: { name: ");
                out.append(self.format_symbol(*name).as_str());
                out.append(", ty: ");
                out.append(self.format_type_opt(ty).as_str());
                out.append(" }");
                out.append("\n");
                out.append(self.expr(expr, inner.as_str()).as_str());
            },
            ActionStmt::Expr(expr) => {
                out.append("Expr:");
                out.append("\n");
                out.append(self.expr(expr, inner.as_str()).as_str());
            },
            ActionStmt::Do(expr) => {
                out.append("Do:");
                out.append("\n");
                out.append(self.expr(expr, inner.as_str()).as_str());
            },
            ActionStmt::Assert(expr, written) => {
                out.append("Assert: { text: ");
                out.append(quote(written.as_str()).as_str());
                out.append(" }");
                out.append("\n");
                out.append(self.expr(expr, inner.as_str()).as_str());
            },
            ActionStmt::Assign { name, expr } => {
                out.append("Assign: { name: ");
                out.append(self.format_symbol(*name).as_str());
                out.append(" }");
                out.append("\n");
                out.append(self.expr(expr, inner.as_str()).as_str());
            },
            ActionStmt::Insert { row, table_name } => {
                out.append("Insert: { table_name: ");
                out.append(self.format_symbol(*table_name).as_str());
                out.append(" }");
                out.append("\n");
                out.append(self.expr(row, inner.as_str()).as_str());
            },
        }
        out
    }

    fn action_stmts(&self, v: &Vec<ActionStmt>, pad: &str) -> (r: String)
        ensures
            r@ == tree_stmts(self.printing(), v.deep_view(), v.deep_view().len(), pad@),
        decreases v, 0nat,
    {
        let ghost t = v.deep_view();
        let mut out = String::new();
        proof {
            reveal(tree_expr);
            reveal(tree_value);
            reveal(tree_action_stmt);
            reveal(tree_exprs);
            reveal(tree_stmts);
        }
        assert(out@ =~= Seq::<char>::empty());
        for i in 0..v.len()
            invariant
                t == v.deep_view(),
                out@ == tree_stmts(self.printing(), t, i as nat, pad@),
        {
            assert(decreases_to!(v => v@[i as int]));
            assert(t[i as int] == v@[i as int].deep_view());
            proof {
                reveal(tree_expr);
                reveal(tree_value);
                reveal(tree_action_stmt);
                reveal(tree_exprs);
                reveal(tree_stmts);
            }
            out.append(self.action_stmt(&v[i], pad).as_str());
        }
        out
    }

    fn decl(&self, x: &Decl, pad: &str) -> (r: String)
        ensures
            r@ == tree_decl(self.printing(), x.deep_view(), pad@),
    {
        let inner = self.deeper(pad);
        let mut out = pad.to_owned();
        match x {
            Decl::VarDecl { name, ty, val } => {
                out.append("VarDecl: { name: ");
                out.append(self.format_symbol(*name).as_str());
                out.append(", ty: ");
                out.append(self.format_type_opt(ty).as_str());
                out.append(" }");
                out.append("\n");
                out.append(self.expr(val, inner.as_str()).as_str());
            },
            Decl::DefDecl { name, ty, val, is_pub } => {
                out.append("DefDecl: { name: ");
                out.append(self.format_symbol(*name).as_str());
                out.append(", ty: ");
                out.append(self.format_type_opt(ty).as_str());
                out.append(", is_pub: ");
                out.append(text::bool_text(*is_pub).as_str());
                out.append(" }");
                out.append("\n");
                out.append(self.expr(val, inner.as_str()).as_str());
            },
            Decl::TableDecl { name, fields } => {
                out.append("TableDecl: { name: ");
                out.append(self.format_symbol(*name).as_str());
                out.append(" }");
                out.append("\n");
                out.append(self.fields(fields, inner.as_str()).as_str());
            },
        }
        out
    }

    fn decls(&self, v: &Vec<Decl>, pad: &str) -> (r: String)
        ensures
            r@ == tree_decls(self.printing(), v.deep_view(), v.deep_view().len(), pad@),
    {
        let ghost t = v.deep_view();
        let mut out = String::new();
        assert(out@ =~= Seq::<char>::empty());
        for i in 0..v.len()
            invariant
                t == v.deep_view(),
                out@ == tree_decls(self.printing(), t, i as nat, pad@),
        {
            assert(t[i as int] == v@[i as int].deep_view());
            out.append(self.decl(&v[i], pad).as_str());
        }
        out
    }

    fn stmt(&self, x: &Stmt, pad: &str) -> (r: String)
        ensures
            r@ == tree_stmt(self.printing(), x.deep_view(), pad@),
    {
        let inner = self.deeper(pad);
        let mut out = pad.to_owned();
        match x {
            Stmt::ActionStmt(action) => {
                out.append("ActionStmt:");
                out.append("\n");
                out.append(self.action_stmt(action, inner.as_str()).as_str());
            },
            Stmt::Update { service_name, decls } => {
                out.append("Update: { service_name: ");
                out.append(self.format_symbol(*service_name).as_str());
                out.append(" }");
                out.append("\n");
                out.append(self.decls(decls, inner.as_str()).as_str());
            },
            Stmt::Connect { path, addr } => {
                out.append("Connect: { path: \"");
                out.append(path.as_str());
                out.append("\", addr: \"");
                out.append(addr.as_str());
                out.append("\" }");
                out.append("\n");
            },
            Stmt::Import { path, service_name, explicit_path } => {
                out.append("Import: { path: \"");
                out.append(path.as_str());
                out.append("\", service_name: ");
                out.append(self.format_symbol(*service_name).as_str());
                out.append(", explicit_path: ");
                out.append(text::bool_text(*explicit_path).as_str());
                out.append(" }");
                out.append("\n");
            },
            Stmt::Service { name, decls } => {
                out.append("Service: { name: ");
                out.append(self.format_symbol(*name).as_str());
                out.append(" }");
                out.append("\n");
                out.append(self.decls(decls, inner.as_str()).as_str());
            },
            Stmt::Test { service_name, stmts } => {
                out.append("Test: { service_name: ");
                out.append(self.format_symbol(*service_name).as_str());
                out.append(" }");
                out.append("\n");
                out.append(self.action_stmts(stmts, inner.as_str()).as_str());
            },
            Stmt::Watch { expr } => {
                out.append("Watch:");
                out.append("\n");
                out.append(self.expr(expr, inner.as_str()).as_str());
            },
        }
        out
    }

}

} // verus!
