//! What the codec does, as mathematics: the text of a term, the names that
//! reading it interns, and the first limit that it breaks.

use crate::error::Error;
use crate::runtime::ast::model::{ActionStmtM, ExprM, FieldM, ValueM};
use crate::runtime::interner;
use crate::runtime::interner::Symbol;
use crate::runtime::limits::{MAX_IDENTIFIER_LENGTH, MAX_STRING_LITERAL_LENGTH};
use crate::runtime::text;
use crate::runtime::tt::ParamM;
use vstd::prelude::*;

verus! {

/// A limit of the wire format.
pub enum Limit {
    Identifier,
    Literal,
}

/// What the codec reports when a term breaks a limit.
pub open spec fn limit_text(l: Limit) -> Seq<char> {
    match l {
        Limit::Identifier => "identifier exceeds maximum length of "@ + text::decimal(
            MAX_IDENTIFIER_LENGTH as nat,
        ) + " characters"@,
        Limit::Literal => "string literal exceeds maximum length of "@ + text::decimal(
            MAX_STRING_LITERAL_LENGTH as nat,
        ) + " characters"@,
    }
}

/// Whether `e` reports that the limit `l` was broken.
pub open spec fn reports(e: Error, l: Limit) -> bool {
    e is LimitExceeded && e.text() == limit_text(l)
}

/// The course of reading a term: the names interned, in order, and the limit
/// at which the reading stopped, if any.
pub struct Log {
    pub names: Seq<Seq<char>>,
    pub err: Option<Limit>,
}

impl Log {
    /// Nothing happens.
    pub open spec fn nil() -> Log {
        Log { names: seq![], err: None }
    }

    /// The names `s` are interned.
    pub open spec fn all(s: Seq<Seq<char>>) -> Log {
        Log { names: s, err: None }
    }

    /// The name `n` is interned.
    pub open spec fn one(n: Seq<char>) -> Log {
        Log::all(seq![n])
    }

    /// This, and `next` after it unless this failed.
    pub open spec fn and(self, next: Log) -> Log {
        if self.err is Some {
            self
        } else {
            Log { names: self.names + next.names, err: next.err }
        }
    }
}

/// The first `n` of `logs`, one after the other.
pub open spec fn concat(logs: Seq<Log>, n: nat) -> Log
    decreases n,
{
    if n == 0 {
        Log::nil()
    } else {
        concat(logs, (n - 1) as nat).and(logs[n - 1])
    }
}

/// All of `logs`, one after the other.
pub open spec fn concat_all(logs: Seq<Log>) -> Log {
    concat(logs, logs.len())
}

/// The test of an identifier's length.
pub open spec fn check(n: Seq<char>) -> Log {
    if text::byte_len(n) > MAX_IDENTIFIER_LENGTH {
        Log { names: seq![], err: Some(Limit::Identifier) }
    } else {
        Log::nil()
    }
}

/// The test of a string literal's length.
pub open spec fn check_literal(s: Seq<char>) -> Log {
    if text::byte_len(s) > MAX_STRING_LITERAL_LENGTH {
        Log { names: seq![], err: Some(Limit::Literal) }
    } else {
        Log::nil()
    }
}

/// The tests of each identifier in turn.
pub open spec fn check_all(s: Seq<Seq<char>>) -> Log {
    concat_all(Seq::new(s.len(), |i: int| check(s[i])))
}

/// The names of parameters.
pub open spec fn param_names<N>(s: Seq<ParamM<N>>) -> Seq<N> {
    Seq::new(s.len(), |i: int| s[i].name)
}

/// The course of reading a column.
pub open spec fn field_log(f: FieldM<Seq<char>>) -> Log {
    check(f.name).and(Log::one(f.name))
}

/// The course of reading columns.
pub open spec fn fields_log(s: Seq<FieldM<Seq<char>>>) -> Log {
    concat_all(Seq::new(s.len(), |i: int| field_log(s[i])))
}

/// The course of reading parameters.
pub open spec fn params_log(s: Seq<ParamM<Seq<char>>>) -> Log {
    check_all(param_names(s)).and(Log::all(param_names(s)))
}

/// The course of reading a value.
#[verifier::opaque]
pub open spec fn value_log(x: ValueM<Seq<char>>) -> Log
    decreases x,
{
    match x {
        ValueM::Int { .. } => Log::nil(),
        ValueM::Bool { .. } => Log::nil(),
        ValueM::String { val } => check_literal(val),
        ValueM::Closure { params, body, env, service_name, return_ty } => params_log(params).and(
            expr_log(*body),
        ).and(
            concat_all(
                env_logs(env)
            ),
        ).and(check(service_name)).and(Log::one(service_name)),
        ValueM::ActionClosure { stmts, env, service_net_id } => concat_all(
            stmt_logs(stmts)
        ).and(
            concat_all(
                env_logs(env)
            ),
        ),
    }
}

/// The course of reading an expression.
#[verifier::opaque]
pub open spec fn expr_log(x: ExprM<Seq<char>>) -> Log
    decreases x,
{
    match x {
        ExprM::Literal { val } => value_log(val),
        ExprM::Variable { name } => check(name).and(Log::one(name)),
        ExprM::Tuple { val } => concat_all(
            expr_logs(val)
        ),
        ExprM::KeyVal { name, value } => check(name).and(Log::one(name)).and(expr_log(*value)),
        ExprM::Unop { op, expr } => expr_log(*expr),
        ExprM::Binop { op, expr1, expr2 } => expr_log(*expr1).and(expr_log(*expr2)),
        ExprM::If { cond, expr1, expr2 } => expr_log(*cond).and(expr_log(*expr1)).and(
            expr_log(*expr2),
        ),
        ExprM::Func { params, body, return_ty } => params_log(params).and(expr_log(*body)),
        ExprM::Call { func, args } => expr_log(*func).and(
            concat_all(
                expr_logs(args)
            ),
        ),
        ExprM::Action(stmts) => concat_all(
            stmt_logs(stmts)
        ),
        ExprM::MemberAccess { service_name, member_name } => check(service_name).and(
            check(member_name),
        ).and(Log::one(service_name)).and(Log::one(member_name)),
        ExprM::Select { table_name, column_names, where_clause } => check(table_name).and(
            check_all(column_names),
        ).and(Log::all(column_names)).and(Log::one(table_name)).and(expr_log(*where_clause)),
        ExprM::Table { schema, records } => fields_log(schema).and(
            concat_all(
                expr_logs(records)
            ),
        ),
        ExprM::Fold { table_name, column_name, operation, identity } => check(table_name).and(
            check(column_name),
        ).and(Log::one(table_name)).and(Log::one(column_name)).and(expr_log(*operation)).and(
            expr_log(*identity),
        ),
    }
}

/// The course of reading a statement.
#[verifier::opaque]
pub open spec fn stmt_log(x: ActionStmtM<Seq<char>>) -> Log
    decreases x,
{
    match x {
        ActionStmtM::Let { name, ty, expr } => check(name).and(Log::one(name)).and(expr_log(expr)),
        ActionStmtM::Expr(expr) => expr_log(expr),
        ActionStmtM::Do(expr) => expr_log(expr),
        ActionStmtM::Assert(expr, written) => expr_log(expr),
        ActionStmtM::Assign { name, expr } => check(name).and(Log::one(name)).and(expr_log(expr)),
        ActionStmtM::Insert { row, table_name } => check(table_name).and(expr_log(row)).and(
            Log::one(table_name),
        ),
    }
}

/// The courses of reading expressions.
#[verifier::opaque]
pub open spec fn expr_logs(s: Seq<ExprM<Seq<char>>>) -> Seq<Log>
    decreases s,
{
    Seq::new(
        s.len(),
        |i: int|
            if 0 <= i < s.len() {
                expr_log(s[i])
            } else {
                arbitrary()
            },
    )
}

/// The courses of reading statements.
#[verifier::opaque]
pub open spec fn stmt_logs(s: Seq<ActionStmtM<Seq<char>>>) -> Seq<Log>
    decreases s,
{
    Seq::new(
        s.len(),
        |i: int|
            if 0 <= i < s.len() {
                stmt_log(s[i])
            } else {
                arbitrary()
            },
    )
}

/// The courses of reading bindings.
#[verifier::opaque]
pub open spec fn env_logs(s: Seq<(Seq<char>, ValueM<Seq<char>>)>) -> Seq<Log>
    decreases s,
{
    Seq::new(
        s.len(),
        |i: int|
            if 0 <= i < s.len() {
                check(s[i].0).and(Log::one(s[i].0)).and(value_log(s[i].1))
            } else {
                arbitrary()
            },
    )
}

/// The course of reading a value, by its parts.
pub proof fn lemma_value_log(x: ValueM<Seq<char>>)
    ensures
        value_log(x) == (match x {
        ValueM::Int { .. } => Log::nil(),
        ValueM::Bool { .. } => Log::nil(),
        ValueM::String { val } => check_literal(val),
        ValueM::Closure { params, body, env, service_name, return_ty } => params_log(params).and(
            expr_log(*body),
        ).and(
            concat_all(
                env_logs(env)
            ),
        ).and(check(service_name)).and(Log::one(service_name)),
        ValueM::ActionClosure { stmts, env, service_net_id } => concat_all(
            stmt_logs(stmts)
        ).and(
            concat_all(
                env_logs(env)
            ),
        ),
    }),
{
    reveal(value_log);
    reveal(expr_log);
    reveal(stmt_log);
    reveal(expr_logs);
    reveal(stmt_logs);
    reveal(env_logs);
}

/// The course of reading an expression, by its parts.
pub proof fn lemma_expr_log(x: ExprM<Seq<char>>)
    ensures
        expr_log(x) == (match x {
        ExprM::Literal { val } => value_log(val),
        ExprM::Variable { name } => check(name).and(Log::one(name)),
        ExprM::Tuple { val } => concat_all(
            expr_logs(val)
        ),
        ExprM::KeyVal { name, value } => check(name).and(Log::one(name)).and(expr_log(*value)),
        ExprM::Unop { op, expr } => expr_log(*expr),
        ExprM::Binop { op, expr1, expr2 } => expr_log(*expr1).and(expr_log(*expr2)),
        ExprM::If { cond, expr1, expr2 } => expr_log(*cond).and(expr_log(*expr1)).and(
            expr_log(*expr2),
        ),
        ExprM::Func { params, body, return_ty } => params_log(params).and(expr_log(*body)),
        ExprM::Call { func, args } => expr_log(*func).and(
            concat_all(
                expr_logs(args)
            ),
        ),
        ExprM::Action(stmts) => concat_all(
            stmt_logs(stmts)
        ),
        ExprM::MemberAccess { service_name, member_name } => check(service_name).and(
            check(member_name),
        ).and(Log::one(service_name)).and(Log::one(member_name)),
        ExprM::Select { table_name, column_names, where_clause } => check(table_name).and(
            check_all(column_names),
        ).and(Log::all(column_names)).and(Log::one(table_name)).and(expr_log(*where_clause)),
        ExprM::Table { schema, records } => fields_log(schema).and(
            concat_all(
                expr_logs(records)
            ),
        ),
        ExprM::Fold { table_name, column_name, operation, identity } => check(table_name).and(
            check(column_name),
        ).and(Log::one(table_name)).and(Log::one(column_name)).and(expr_log(*operation)).and(
            expr_log(*identity),
        ),
    }),
{
    reveal(value_log);
    reveal(expr_log);
    reveal(stmt_log);
    reveal(expr_logs);
    reveal(stmt_logs);
    reveal(env_logs);
}

/// The course of reading a statement, by its parts.
pub proof fn lemma_stmt_log(x: ActionStmtM<Seq<char>>)
    ensures
        stmt_log(x) == (match x {
        ActionStmtM::Let { name, ty, expr } => check(name).and(Log::one(name)).and(expr_log(expr)),
        ActionStmtM::Expr(expr) => expr_log(expr),
        ActionStmtM::Do(expr) => expr_log(expr),
        ActionStmtM::Assert(expr, written) => expr_log(expr),
        ActionStmtM::Assign { name, expr } => check(name).and(Log::one(name)).and(expr_log(expr)),
        ActionStmtM::Insert { row, table_name } => check(table_name).and(expr_log(row)).and(
            Log::one(table_name),
        ),
    }),
{
    reveal(value_log);
    reveal(expr_log);
    reveal(stmt_log);
    reveal(expr_logs);
    reveal(stmt_logs);
    reveal(env_logs);
}

/// The courses of reading the items of lists.
pub broadcast proof fn lemma_expr_logs(s: Seq<ExprM<Seq<char>>>)
    ensures
        (#[trigger] expr_logs(s)).len() == s.len(),
        forall|i: int| 0 <= i < s.len() ==> #[trigger] expr_logs(s)[i] == expr_log(s[i]),
{
    reveal(value_log);
    reveal(expr_log);
    reveal(stmt_log);
    reveal(expr_logs);
}

/// The courses of reading the items of lists.
pub broadcast proof fn lemma_stmt_logs(s: Seq<ActionStmtM<Seq<char>>>)
    ensures
        (#[trigger] stmt_logs(s)).len() == s.len(),
        forall|i: int| 0 <= i < s.len() ==> #[trigger] stmt_logs(s)[i] == stmt_log(s[i]),
{
    reveal(value_log);
    reveal(expr_log);
    reveal(stmt_log);
    reveal(stmt_logs);
}

/// The courses of reading the items of lists.
pub broadcast proof fn lemma_env_logs(s: Seq<(Seq<char>, ValueM<Seq<char>>)>)
    ensures
        (#[trigger] env_logs(s)).len() == s.len(),
        forall|i: int|
            0 <= i < s.len() ==> #[trigger] env_logs(s)[i] == check(s[i].0).and(
                Log::one(s[i].0),
            ).and(value_log(s[i].1)),
{
    reveal(value_log);
    reveal(expr_log);
    reveal(stmt_log);
    reveal(env_logs);
}

/// Facts on lists.
pub broadcast group group_lists {
    lemma_expr_logs,
    lemma_stmt_logs,
    lemma_env_logs,
}

/// Once a course has failed, nothing more happens.
pub proof fn lemma_concat_stops(logs: Seq<Log>, i: nat, n: nat)
    requires
        i <= n,
        concat(logs, i).err is Some,
    ensures
        concat(logs, n) == concat(logs, i),
    decreases n,
{
    if i < n {
        lemma_concat_stops(logs, i, (n - 1) as nat);
    }
}

/// A course that does not fail has no step that fails, and interns what each
/// step interns.
pub proof fn lemma_concat_parts(logs: Seq<Log>, n: nat, j: int)
    requires
        n <= logs.len(),
        concat(logs, n).err is None,
        0 <= j < n,
    ensures
        logs[j].err is None,
        forall|m: Seq<char>| #[trigger]
            logs[j].names.contains(m) ==> concat(logs, n).names.contains(m),
    decreases n,
{
    let before = concat(logs, (n - 1) as nat);
    let whole = concat(logs, n).names;
    assert(whole == before.names + logs[n - 1].names);
    if j < n - 1 {
        lemma_concat_parts(logs, (n - 1) as nat, j);
        assert forall|m: Seq<char>| #[trigger] logs[j].names.contains(m) implies whole.contains(
            m,
        ) by {
            let k = choose|k: int| 0 <= k < before.names.len() && before.names[k] == m;
            assert(whole[k] == m);
        }
    } else {
        assert forall|m: Seq<char>| #[trigger] logs[j].names.contains(m) implies whole.contains(
            m,
        ) by {
            let k = choose|k: int| 0 <= k < logs[j].names.len() && logs[j].names[k] == m;
            assert(whole[before.names.len() + k] == m);
        }
    }
}

/// The names that symbols stand for.
pub open spec fn naming(names: Seq<Seq<char>>) -> spec_fn(Symbol) -> Seq<char> {
    |s: Symbol| interner::name_of(names, s)
}

/// The symbols that stand for names.
pub open spec fn symbolizing(names: Seq<Seq<char>>) -> spec_fn(Seq<char>) -> Symbol {
    |n: Seq<char>| interner::symbol_of(names, n)
}

/// Whether a name has been interned.
pub open spec fn known(names: Seq<Seq<char>>) -> spec_fn(Seq<char>) -> bool {
    |n: Seq<char>| names.contains(n)
}

/// Whether a symbol stands for a name.
pub open spec fn valid(names: Seq<Seq<char>>) -> spec_fn(Symbol) -> bool {
    |s: Symbol| s.id < names.len()
}

/// Whether `more` holds `names`, in their places.
pub open spec fn extends(more: Seq<Seq<char>>, names: Seq<Seq<char>>) -> bool {
    names.len() <= more.len() && forall|i: int| 0 <= i < names.len() ==> more[i] == names[i]
}

/// Holding names in their places carries over.
pub broadcast proof fn lemma_extends_trans(
    a: Seq<Seq<char>>,
    b: Seq<Seq<char>>,
    c: Seq<Seq<char>>,
)
    requires
        #[trigger] extends(a, b),
        #[trigger] extends(b, c),
    ensures
        extends(a, c),
{
    assert forall|i: int| 0 <= i < c.len() implies a[i] == c[i] by {
        assert(b[i] == c[i]);
    }
}

/// A further step of a course, and the names it leaves.
pub proof fn lemma_step(names: Seq<Seq<char>>, done: Log, step: Log)
    requires
        done.err is None,
    ensures
        interner::interned_all(interner::interned_all(names, done.names), step.names)
            == interner::interned_all(names, done.and(step).names),
        extends(
            interner::interned_all(names, done.and(step).names),
            interner::interned_all(names, done.names),
        ),
        extends(interner::interned_all(names, done.names), names),
{
    let mid = interner::interned_all(names, done.names);
    interner::lemma_interned_all(names, done.names, step.names);
    interner::lemma_interned_all(mid, step.names, seq![]);
    lemma_prefix(names, mid);
    lemma_prefix(mid, interner::interned_all(mid, step.names));
}

/// A prefix is extended by the whole.
pub proof fn lemma_prefix(names: Seq<Seq<char>>, more: Seq<Seq<char>>)
    requires
        names.is_prefix_of(more),
    ensures
        extends(more, names),
{
    assert forall|i: int| 0 <= i < names.len() implies more[i] == names[i] by {
        assert(more.subrange(0, names.len() as int)[i] == names[i]);
    }
}

/// Whether `r` is the outcome of a course: the failure that stopped it, or a
/// term with the model `v`.
pub open spec fn outcome<T: DeepView>(r: Result<T, Error>, log: Log, v: T::V) -> bool {
    match r {
        Ok(x) => log.err is None && x.deep_view() == v,
        Err(e) => log.err is Some && reports(e, log.err->Some_0),
    }
}

/// Whether `r` fails as a course does.
pub open spec fn stopped<T>(r: Result<T, Error>, log: Log) -> bool {
    match r {
        Ok(_) => log.err is None,
        Err(e) => log.err is Some && reports(e, log.err->Some_0),
    }
}

/// Names hold themselves in their places.
pub proof fn lemma_extends_self(names: Seq<Seq<char>>)
    ensures
        extends(names, names),
{
}

/// The symbol of a name stays the same however many names are added.
pub proof fn lemma_symbol_stable(names: Seq<Seq<char>>, more: Seq<Seq<char>>, n: Seq<char>)
    requires
        extends(more, names),
        names.contains(n),
    ensures
        interner::symbol_of(more, n) == interner::symbol_of(names, n),
        more.contains(n),
{
    assert(names =~= more.subrange(0, names.len() as int));
    interner::lemma_place_stable(names, more, n);
}

/// Testing names interns none.
pub proof fn lemma_checks_intern_nothing(s: Seq<Seq<char>>)
    ensures
        check_all(s).names =~= Seq::<Seq<char>>::empty(),
{
    let logs = Seq::new(s.len(), |i: int| check(s[i]));
    lemma_silent(logs, logs.len());
}

proof fn lemma_silent(logs: Seq<Log>, n: nat)
    requires
        n <= logs.len(),
        forall|i: int| 0 <= i < logs.len() ==> (#[trigger] logs[i]).names.len() == 0,
    ensures
        concat(logs, n).names.len() == 0,
    decreases n,
{
    if n > 0 {
        lemma_silent(logs, (n - 1) as nat);
    }
}

/// The courses of reading the bindings of an action: each value, and then its
/// name, which is not tested.
pub open spec fn bound_logs(s: Seq<(Seq<char>, ValueM<Seq<char>>)>) -> Seq<Log> {
    Seq::new(s.len(), |i: int| value_log(s[i].1).and(Log::one(s[i].0)))
}

/// The course of reading an action: its statements, then its bindings.
pub open spec fn request_log(
    stmts: Seq<ActionStmtM<Seq<char>>>,
    env: Seq<(Seq<char>, ValueM<Seq<char>>)>,
) -> Log {
    concat_all(stmt_logs(stmts)).and(concat_all(bound_logs(env)))
}

/// Three names that come off the wire are tested and then interned.
pub open spec fn three_log(a: Seq<char>, b: Seq<char>, c: Seq<char>) -> Log {
    check(a).and(check(b)).and(check(c)).and(Log::all(seq![a, b, c]))
}

} // verus!
