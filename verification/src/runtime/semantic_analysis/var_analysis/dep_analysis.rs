//! Dependencies among the variables, definitions and tables of a service.

use crate::runtime::ast::model::DeclM;
use crate::runtime::ast::Decl;
use crate::runtime::interner::Symbol;
use crate::runtime::semantic_analysis::var_analysis::read_write;
use crate::runtime::semantic_analysis::var_analysis::symbols::SymbolSet;
use crate::runtime::table;
use crate::runtime::table::Table;
use vstd::prelude::*;

verus! {

/// What a service declares, and which of its members depend on which.
#[derive(Debug, Clone)]
pub struct DependAnalysis {
    pub vars: SymbolSet,
    pub defs: SymbolSet,
    pub tables: SymbolSet,
    /// The names that each declaration uses.
    pub dep_graph: Table<Symbol, SymbolSet>,
    /// The declarations, each after all that it depends on.
    pub topo_order: Vec<Symbol>,
    /// All that each declaration depends on.
    pub dep_transitive: Table<Symbol, SymbolSet>,
    /// The variables and tables that each declaration depends on.
    pub dep_vars: Table<Symbol, SymbolSet>,
}

/// The model of a [`DependAnalysis`].
pub struct DepM {
    pub vars: Set<Symbol>,
    pub defs: Set<Symbol>,
    pub tables: Set<Symbol>,
    pub dep_graph: Seq<(Symbol, Set<Symbol>)>,
    pub topo_order: Seq<Symbol>,
    pub dep_transitive: Seq<(Symbol, Set<Symbol>)>,
    pub dep_vars: Seq<(Symbol, Set<Symbol>)>,
}

impl DeepView for DependAnalysis {
    type V = DepM;

    open spec fn deep_view(&self) -> DepM {
        DepM {
            vars: self.vars@,
            defs: self.defs@,
            tables: self.tables@,
            dep_graph: self.dep_graph.deep_view(),
            topo_order: self.topo_order@,
            dep_transitive: self.dep_transitive.deep_view(),
            dep_vars: self.dep_vars.deep_view(),
        }
    }
}

/// What the first `n` declarations make of the name sets and the graph.
pub open spec fn declared(decls: Seq<DeclM<Symbol>>, n: nat) -> DepM
    decreases n,
{
    if n == 0 {
        DepM {
            vars: Set::empty(),
            defs: Set::empty(),
            tables: Set::empty(),
            dep_graph: seq![],
            topo_order: seq![],
            dep_transitive: seq![],
            dep_vars: seq![],
        }
    } else {
        let d = declared(decls, (n - 1) as nat);
        match decls[n - 1] {
            DeclM::VarDecl { name, ty, val } => DepM {
                vars: d.vars.insert(name),
                dep_graph: table::put(d.dep_graph, name, Set::empty()),
                ..d
            },
            DeclM::DefDecl { name, ty, val, is_pub } => DepM {
                defs: d.defs.insert(name),
                dep_graph: table::put(
                    d.dep_graph,
                    name,
                    read_write::free_vars(
                        val,
                        d.vars.union(d.defs).insert(name),
                        Set::empty(),
                    ),
                ),
                ..d
            },
            DeclM::TableDecl { name, fields } => DepM {
                tables: d.tables.insert(name),
                dep_graph: table::put(d.dep_graph, name, Set::empty()),
                ..d
            },
        }
    }
}

impl DepM {
    /// Variables and tables, which depend on nothing but themselves.
    pub open spec fn base(self) -> Set<Symbol> {
        self.vars.union(self.tables)
    }

    /// Everything that is declared.
    pub open spec fn names(self) -> Set<Symbol> {
        self.vars.union(self.defs).union(self.tables)
    }

    /// Whether the graph has an edge from `a` to `b`.
    pub open spec fn edge(self, a: Symbol, b: Symbol) -> bool {
        table::get(self.dep_graph, a) matches Some(s) && s.contains(b)
    }

    /// Whether a chain of at most `n` edges leads from `a` to `b` and passes
    /// through definitions only.
    pub open spec fn path(self, a: Symbol, b: Symbol, n: nat) -> bool
        decreases n,
    {
        n > 0 && !self.base().contains(a) && exists|d: Symbol| #[trigger]
            self.edge(a, d) && (d == b || self.path(d, b, (n - 1) as nat))
    }

    /// All that `a` depends on; a variable or a table depends on itself.
    pub open spec fn reach(self, a: Symbol) -> Set<Symbol> {
        if self.base().contains(a) {
            set![a]
        } else {
            Set::new(|b: Symbol| exists|n: nat| self.path(a, b, n))
        }
    }

    /// Whether every chain of edges from `a` ends in variables and tables
    /// within `n` steps.
    pub open spec fn grounded(self, a: Symbol, n: nat) -> bool
        decreases n,
    {
        self.base().contains(a) || (n > 0 && table::bound(self.dep_graph, a) && forall|d: Symbol|
            #[trigger] self.edge(a, d) ==> self.grounded(d, (n - 1) as nat))
    }

    /// Whether every declared name is grounded: no name is missing and nothing
    /// depends on itself.
    pub open spec fn closed_and_acyclic(self) -> bool {
        forall|a: Symbol| #[trigger] self.names().contains(a) ==> exists|n: nat| self.grounded(a, n)
    }

    /// Whether this is what `decls` declare.
    pub open spec fn declared_by(self, decls: Seq<DeclM<Symbol>>) -> bool {
        let d = declared(decls, decls.len());
        self.vars == d.vars && self.defs == d.defs && self.tables == d.tables && self.dep_graph
            == d.dep_graph
    }

    /// Whether `order` lists names after what they depend on.
    pub open spec fn ordered(self, order: Seq<Symbol>) -> bool {
        forall|i: int, d: Symbol|
            0 <= i < order.len() && !self.base().contains(order[i]) && #[trigger] self.edge(
                order[i],
                d,
            ) ==> order.take(i).contains(d)
    }

    /// Whether a name is declared, or something that is declared depends on it.
    pub open spec fn wanted(self, a: Symbol) -> bool {
        self.names().contains(a) || exists|b: Symbol| #[trigger]
            self.names().contains(b) && self.reach(b).contains(a)
    }

    /// Whether the graph has entries for declared names alone.
    pub open spec fn closed(self) -> bool {
        forall|a: Symbol| #[trigger] table::bound(self.dep_graph, a) ==> self.names().contains(a)
    }

    /// Whether nothing has been worked out yet.
    pub open spec fn fresh(self) -> bool {
        self.topo_order.len() == 0 && self.dep_transitive.len() == 0 && self.dep_vars.len() == 0
    }

    /// Whether the dependencies have been worked out, of what is declared and
    /// what that depends on, and of nothing else.
    pub open spec fn solved(self) -> bool {
        &&& self.topo_order.no_duplicates()
        &&& forall|a: Symbol| #[trigger]
            self.names().contains(a) ==> self.topo_order.contains(a)
        &&& forall|a: Symbol| #[trigger]
            self.topo_order.contains(a) ==> self.wanted(a) && (self.names().contains(a)
                || table::bound(self.dep_graph, a))
        &&& self.ordered(self.topo_order)
        &&& table::keys_distinct(self.dep_transitive)
        &&& forall|a: Symbol| #[trigger]
            self.topo_order.contains(a) <==> table::bound(self.dep_transitive, a)
        &&& forall|a: Symbol| #[trigger]
            table::bound(self.dep_transitive, a) ==> table::get(self.dep_transitive, a) == Some(
                self.reach(a),
            )
        &&& table::keys_distinct(self.dep_vars)
        &&& forall|a: Symbol| #[trigger]
            table::bound(self.dep_vars, a) ==> self.names().contains(a)
        &&& forall|a: Symbol| #[trigger]
            self.names().contains(a) ==> table::get(self.dep_vars, a) == Some(
                self.reach(a).intersect(self.base()),
            )
    }

    /// Whether the order and both tables hold what is declared and nothing else.
    pub open spec fn exact(self) -> bool {
        &&& forall|a: Symbol| #[trigger]
            self.topo_order.contains(a) <==> self.names().contains(a)
        &&& forall|a: Symbol| #[trigger]
            table::bound(self.dep_transitive, a) <==> self.names().contains(a)
        &&& forall|a: Symbol| #[trigger]
            table::bound(self.dep_vars, a) <==> self.names().contains(a)
    }
}

/// What is worked out of a graph without further entries is just what is
/// declared.
pub proof fn law_solved_is_exact(m: DepM)
    requires
        m.solved(),
        m.closed(),
    ensures
        m.exact(),
{
    assert forall|a: Symbol| #[trigger] m.topo_order.contains(a) <==> m.names().contains(a) by {}
    assert forall|a: Symbol| #[trigger]
        table::bound(m.dep_transitive, a) <==> m.names().contains(a) by {
        assert(m.topo_order.contains(a) <==> table::bound(m.dep_transitive, a));
        assert(m.topo_order.contains(a) <==> m.names().contains(a));
    }
    assert forall|a: Symbol| #[trigger]
        table::bound(m.dep_vars, a) <==> m.names().contains(a) by {
        if m.names().contains(a) {
            assert(table::get(m.dep_vars, a) is Some);
        }
    }
}

/// The variables that a name depends on are among all that it depends on.
pub proof fn law_dep_vars_are_dependencies(m: DepM, a: Symbol)
    requires
        m.solved(),
        m.names().contains(a),
    ensures
        table::get(m.dep_vars, a) matches Some(x) && table::get(m.dep_transitive, a) matches Some(y)
            && x.subset_of(y),
{
    assert(m.topo_order.contains(a));
    assert(table::bound(m.dep_transitive, a));
}

/// Declarations give the graph entries for what they declare, and no others.
pub proof fn law_declared_is_closed(decls: Seq<DeclM<Symbol>>, m: DepM)
    requires
        m.declared_by(decls),
    ensures
        m.closed(),
{
    lemma_declared_keys(decls, decls.len());
    let d = declared(decls, decls.len());
    assert(m.names() == d.names());
}

proof fn lemma_declared_keys(decls: Seq<DeclM<Symbol>>, n: nat)
    ensures
        declared(decls, n).closed(),
    decreases n,
{
    let r = declared(decls, n);
    if n == 0 {
        assert forall|a: Symbol| #[trigger] table::bound(r.dep_graph, a) implies false by {
            table::lemma_slot(r.dep_graph, a);
        }
    } else {
        let d = declared(decls, (n - 1) as nat);
        lemma_declared_keys(decls, (n - 1) as nat);
        assert forall|a: Symbol| #[trigger] table::bound(r.dep_graph, a) implies r.names().contains(
            a,
        ) by {
            match decls[n - 1] {
                DeclM::VarDecl { name, ty, val } => {
                    table::lemma_put(d.dep_graph, name, Set::empty(), a);
                },
                DeclM::DefDecl { name, ty, val, is_pub } => {
                    table::lemma_put(
                        d.dep_graph,
                        name,
                        read_write::free_vars(
                            val,
                            d.vars.union(d.defs).insert(name),
                            Set::empty(),
                        ),
                        a,
                    );
                },
                DeclM::TableDecl { name, fields } => {
                    table::lemma_put(d.dep_graph, name, Set::empty(), a);
                },
            }
            if a != name_of(decls[n - 1]) {
                assert(table::bound(d.dep_graph, a));
                assert(d.names().contains(a));
            }
        }
    }
}

/// The name that a declaration declares.
pub open spec fn name_of(d: DeclM<Symbol>) -> Symbol {
    match d {
        DeclM::VarDecl { name, ty, val } => name,
        DeclM::DefDecl { name, ty, val, is_pub } => name,
        DeclM::TableDecl { name, fields } => name,
    }
}

/// What something that is wanted uses is wanted.
proof fn lemma_wanted_use(m: DepM, a: Symbol, d: Symbol)
    requires
        m.wanted(a),
        m.edge(a, d),
        !m.base().contains(a),
    ensures
        m.wanted(d),
{
    if m.names().contains(a) {
        assert(m.path(a, d, 1));
        assert(m.reach(a).contains(d));
    } else {
        let b = choose|b: Symbol| #[trigger] m.names().contains(b) && m.reach(b).contains(a);
        if !m.base().contains(b) {
            let n = choose|n: nat| m.path(b, a, n);
            lemma_path_on(m, b, a, d, n);
            assert(m.path(b, d, n + 1));
            assert(m.reach(b).contains(d));
        }
    }
}

/// A chain goes on by one edge.
proof fn lemma_path_on(m: DepM, b: Symbol, a: Symbol, d: Symbol, n: nat)
    requires
        m.path(b, a, n),
        m.edge(a, d),
        !m.base().contains(a),
    ensures
        m.path(b, d, n + 1),
    decreases n,
{
    let e = choose|e: Symbol| #[trigger]
        m.edge(b, e) && (e == a || m.path(e, a, (n - 1) as nat));
    if e == a {
        assert(m.path(a, d, n));
    } else {
        lemma_path_on(m, e, a, d, (n - 1) as nat);
    }
    assert(m.edge(b, e) && m.path(e, d, ((n + 1) - 1) as nat));
}

/// Whether the declarations of a service can be analysed: no definition uses a
/// name that is not declared, and none depends on itself.
pub open spec fn analyzable(decls: Seq<DeclM<Symbol>>) -> bool {
    declared(decls, decls.len()).closed_and_acyclic()
}

/// What a definition depends on, by what it uses.
pub proof fn lemma_reach(m: DepM, a: Symbol, b: Symbol)
    requires
        !m.base().contains(a),
    ensures
        m.reach(a).contains(b) <==> exists|d: Symbol| #[trigger]
            m.edge(a, d) && (d == b || m.reach(d).contains(b)),
{
    if m.reach(a).contains(b) {
        let n = choose|n: nat| m.path(a, b, n);
        let d = choose|d: Symbol| #[trigger]
            m.edge(a, d) && (d == b || m.path(d, b, (n - 1) as nat));
        if d != b {
            assert(m.path(d, b, (n - 1) as nat));
            assert(m.reach(d).contains(b));
        }
        assert(m.edge(a, d));
    }
    if exists|d: Symbol| #[trigger] m.edge(a, d) && (d == b || m.reach(d).contains(b)) {
        let d = choose|d: Symbol| #[trigger] m.edge(a, d) && (d == b || m.reach(d).contains(b));
        if d == b || m.base().contains(d) {
            assert(m.edge(a, b));
            assert(m.path(a, b, 1));
        } else {
            let n = choose|n: nat| m.path(d, b, n);
            assert(m.edge(a, d) && m.path(d, b, ((n + 1) - 1) as nat));
            assert(m.path(a, b, n + 1));
        }
    }
}

/// More steps never hurt.
pub proof fn lemma_grounded_more(m: DepM, a: Symbol, n: nat, k: nat)
    requires
        m.grounded(a, n),
        n <= k,
    ensures
        m.grounded(a, k),
    decreases n,
{
    if !m.base().contains(a) {
        assert forall|d: Symbol| #[trigger] m.edge(a, d) implies m.grounded(d, (k - 1) as nat) by {
            lemma_grounded_more(m, d, (n - 1) as nat, (k - 1) as nat);
        }
    }
}

/// A set that holds the variables and tables, and each declaration whose uses
/// it holds, holds everything that is grounded.
proof fn lemma_settled(m: DepM, s: Set<Symbol>, a: Symbol, n: nat)
    requires
        m.grounded(a, n),
        forall|x: Symbol| #[trigger] m.base().contains(x) ==> s.contains(x),
        forall|x: Symbol|
            #[trigger] table::bound(m.dep_graph, x) && (forall|d: Symbol| #[trigger]
                m.edge(x, d) ==> s.contains(d)) ==> s.contains(x),
    ensures
        s.contains(a),
    decreases n,
{
    if !m.base().contains(a) {
        assert forall|d: Symbol| #[trigger] m.edge(a, d) implies s.contains(d) by {
            lemma_settled(m, s, d, (n - 1) as nat);
        }
    }
}

impl DependAnalysis {
    /// The names that `decls` declare and the names that each of them uses.
    pub fn new(decls: &Vec<Decl>) -> (r: DependAnalysis)
        ensures
            r.deep_view().declared_by(decls.deep_view()),
            r.deep_view() == declared(decls.deep_view(), decls.deep_view().len()),
            r.deep_view().fresh(),
            r.deep_view().closed(),
    {
        let ghost t = decls.deep_view();
        let mut r = DependAnalysis {
            vars: SymbolSet::new(),
            defs: SymbolSet::new(),
            tables: SymbolSet::new(),
            dep_graph: Table::new(),
            topo_order: Vec::new(),
            dep_transitive: Table::new(),
            dep_vars: Table::new(),
        };
        let none = SymbolSet::new();
        for i in 0..decls.len()
            invariant
                t == decls.deep_view(),
                none@ == Set::<Symbol>::empty(),
                r.deep_view() == declared(t, i as nat),
                r.deep_view().fresh(),
        {
            assert(t[i as int] == decls@[i as int].deep_view());
            match &decls[i] {
                Decl::VarDecl { name, .. } => {
                    r.vars.insert(*name);
                    r.dep_graph.insert(*name, SymbolSet::new());
                },
                Decl::DefDecl { name, val, .. } => {
                    let mut reactive = r.vars.dup();
                    reactive.extend(&r.defs);
                    reactive.insert(*name);
                    let deps = val.free_var(&reactive, &none);
                    r.defs.insert(*name);
                    r.dep_graph.insert(*name, deps);
                },
                Decl::TableDecl { name, .. } => {
                    r.tables.insert(*name);
                    r.dep_graph.insert(*name, SymbolSet::new());
                },
            }
        }
        proof {
            law_declared_is_closed(t, r.deep_view());
        }
        r
    }

    /// Every name that is declared or has an entry in the graph.
    fn all_names(&self) -> (r: Vec<Symbol>)
        ensures
            forall|a: Symbol| #[trigger]
                r@.contains(a) <==> self.deep_view().names().contains(a) || table::bound(
                    self.deep_view().dep_graph,
                    a,
                ),
    {
        let mut s = self.vars.dup();
        s.extend(&self.defs);
        s.extend(&self.tables);
        let ghost before = s@;
        let ghost g = self.dep_graph.deep_view();
        for i in 0..self.dep_graph.entries.len()
            invariant
                g == self.dep_graph.deep_view(),
                forall|a: Symbol| #[trigger]
                    s@.contains(a) <==> before.contains(a) || exists|j: int|
                        0 <= j < i && (#[trigger] g[j]).0 == a,
        {
            let ghost prior = s@;
            s.insert(self.dep_graph.entries[i].0);
            assert forall|a: Symbol| #[trigger]
                s@.contains(a) <==> before.contains(a) || exists|j: int|
                    0 <= j < i + 1 && (#[trigger] g[j]).0 == a by {
                if a == g[i as int].0 {
                    assert(g[i as int].0 == a);
                }
                assert(s@.contains(a) == (prior.contains(a) || a == g[i as int].0));
            }
        }
        proof {
            assert forall|a: Symbol|
                table::bound(g, a) <==> exists|j: int|
                    0 <= j < g.len() && (#[trigger] g[j]).0 == a by {
                table::lemma_slot(g, a);
                if exists|j: int| 0 <= j < g.len() && (#[trigger] g[j]).0 == a {
                    let j = choose|j: int| 0 <= j < g.len() && (#[trigger] g[j]).0 == a;
                    table::lemma_bound(g, a, j);
                }
            }
            assert forall|a: Symbol| #[trigger]
                s.items@.contains(a) <==> self.deep_view().names().contains(a) || table::bound(
                    self.deep_view().dep_graph,
                    a,
                ) by {
                assert(s.items@.contains(a) == s@.contains(a));
                assert(before.contains(a) == self.deep_view().names().contains(a));
            }
        }
        s.items
    }

    /// Whether every name that `name` uses is in `settled`.
    fn uses_settled(&self, name: &Symbol, settled: &SymbolSet) -> (r: bool)
        ensures
            r == (self.deep_view().base().contains(*name) || (table::bound(
                self.deep_view().dep_graph,
                *name,
            ) && forall|d: Symbol| #[trigger]
                self.deep_view().edge(*name, d) ==> settled@.contains(d))),
    {
        if self.vars.contains(name) || self.tables.contains(name) {
            return true;
        }
        match self.dep_graph.get(name) {
            None => false,
            Some(deps) => {
                for i in 0..deps.items.len()
                    invariant
                        forall|j: int| 0 <= j < i ==> settled@.contains(#[trigger] deps.items@[j]),
                        table::get(self.deep_view().dep_graph, *name) == Some(deps@),
                        !self.deep_view().base().contains(*name),
                {
                    if !settled.contains(&deps.items[i]) {
                        assert(deps@.contains(deps.items@[i as int]));
                        assert(self.deep_view().edge(*name, deps.items@[i as int]));
                        return false;
                    }
                }
                assert forall|d: Symbol| #[trigger] self.deep_view().edge(*name, d)
                    implies settled@.contains(d) by {
                    assert(deps.items@.contains(d));
                    let j = choose|j: int| 0 <= j < deps.items@.len() && deps.items@[j] == d;
                    assert(settled@.contains(deps.items@[j]));
                }
                true
            },
        }
    }

    /// Whether the dependencies can be worked out.
    pub fn analyzable(&self) -> (r: bool)
        ensures
            r == self.deep_view().closed_and_acyclic(),
    {
        let ghost m = self.deep_view();
        let mut todo = self.all_names();
        let ghost all = todo@;
        let mut settled = SymbolSet::new();
        loop
            invariant
                m == self.deep_view(),
                forall|a: Symbol| #[trigger]
                    all.contains(a) <==> m.names().contains(a) || table::bound(m.dep_graph, a),
                forall|a: Symbol| #[trigger]
                    settled@.contains(a) ==> exists|n: nat| m.grounded(a, n),
                forall|a: Symbol| #[trigger]
                    all.contains(a) ==> settled@.contains(a) || todo@.contains(a),
                forall|a: Symbol| #[trigger] todo@.contains(a) ==> all.contains(a),
            decreases todo@.len(),
        {
            let ghost base_settled = settled@;
            let mut rest: Vec<Symbol> = Vec::new();
            let mut i: usize = 0;
            while i < todo.len()
                invariant
                    m == self.deep_view(),
                    i <= todo@.len(),
                    rest@.len() <= i,
                    forall|a: Symbol| #[trigger]
                        settled@.contains(a) ==> exists|n: nat| m.grounded(a, n),
                    forall|a: Symbol| #[trigger]
                        base_settled.contains(a) ==> settled@.contains(a),
                    forall|j: int|
                        0 <= j < i ==> settled@.contains(#[trigger] todo@[j]) || rest@.contains(
                            todo@[j],
                        ),
                    forall|a: Symbol| #[trigger] rest@.contains(a) ==> todo@.contains(a),
                    rest@.len() == i ==> settled@ == base_settled && rest@ == todo@.take(i as int)
                        && forall|j: int|
                        0 <= j < i ==> !m.base().contains(#[trigger] todo@[j]) && !(table::bound(
                            m.dep_graph,
                            todo@[j],
                        ) && forall|d: Symbol| #[trigger]
                            m.edge(todo@[j], d) ==> settled@.contains(d)),
                decreases todo@.len() - i,
            {
                let name = todo[i];
                let ghost prior = rest@;
                let ghost before = settled@;
                if self.uses_settled(&name, &settled) {
                    proof {
                        assert(settled@ =~= settled.items@.to_set());
                        vstd::seq_lib::seq_to_set_is_finite(settled.items@);
                        lemma_can_settle(m, settled@, name);
                    }
                    settled.insert(name);
                } else {
                    rest.push(name);
                    proof {
                        assert forall|a: Symbol| #[trigger] rest@.contains(a)
                            implies todo@.contains(a) by {
                            if a != name {
                                let k = choose|k: int| 0 <= k < rest@.len() && rest@[k] == a;
                                assert(prior[k] == a);
                                assert(prior.contains(a));
                            } else {
                                assert(todo@[i as int] == a);
                            }
                        }
                        assert(rest@[prior.len() as int] == name);
                        assert forall|j: int| 0 <= j < i implies settled@.contains(
                            #[trigger] todo@[j],
                        )
                            || rest@.contains(todo@[j]) by {
                            if prior.contains(todo@[j]) {
                                let k = choose|k: int| 0 <= k < prior.len() && prior[k] == todo@[j];
                                assert(rest@[k] == todo@[j]);
                            }
                        }
                        if rest@.len() == i + 1 {
                            assert(rest@ =~= todo@.take(i + 1));
                        }
                    }
                }
                i = i + 1;
            }
            if rest.len() == todo.len() {
                let r = rest.len() == 0;
                proof {
                    assert(rest@ =~= todo@);
                    if r {
                        assert forall|a: Symbol| #[trigger] m.names().contains(
                            a,
                        ) implies exists|n: nat|
                            m.grounded(a, n) by {
                            assert(all.contains(a));
                        }
                    } else {
                        lemma_stuck(m, settled@, todo@, all);
                    }
                }
                if r {
                    return true;
                }
                return self.all_settled(&settled);
            }
            proof {
                assert forall|a: Symbol| #[trigger] all.contains(a) implies settled@.contains(a)
                    || rest@.contains(a) by {
                    if !base_settled.contains(a) {
                        let j = choose|j: int| 0 <= j < todo@.len() && todo@[j] == a;
                        assert(settled@.contains(todo@[j]) || rest@.contains(todo@[j]));
                    }
                }
            }
            todo = rest;
        }
    }

    /// Whether every declared name is in `settled`, which holds all that is grounded.
    fn all_settled(&self, settled: &SymbolSet) -> (r: bool)
        requires
            forall|a: Symbol| #[trigger]
                settled@.contains(a) <==> exists|n: nat| self.deep_view().grounded(a, n),
        ensures
            r == self.deep_view().closed_and_acyclic(),
    {
        let mut s = self.vars.dup();
        s.extend(&self.defs);
        s.extend(&self.tables);
        let missing = s.difference(settled);
        let r = missing.is_empty();
        proof {
            let m = self.deep_view();
            assert(s@ =~= m.names());
            if r {
                assert forall|a: Symbol| #[trigger] m.names().contains(a) implies exists|n: nat|
                    m.grounded(a, n) by {
                    assert(!missing@.contains(a));
                    assert(settled@.contains(a));
                }
            } else {
                if m.closed_and_acyclic() {
                    assert forall|a: Symbol| !missing@.contains(a) by {
                        if m.names().contains(a) {
                            assert(settled@.contains(a));
                        }
                    }
                    assert(missing@ =~= Set::<Symbol>::empty());
                }
            }
        }
        r
    }

    /// Works out all that `name` depends on, after the same for all that it uses.
    fn dfs_helper(
        graph: &Table<Symbol, SymbolSet>,
        vars: &SymbolSet,
        tables: &SymbolSet,
        finished: &mut Vec<Symbol>,
        calced: &mut Table<Symbol, SymbolSet>,
        name: &Symbol,
        Ghost(m): Ghost<DepM>,
        Ghost(depth): Ghost<nat>,
    )
        requires
            graph.deep_view() == m.dep_graph,
            vars@ == m.vars,
            tables@ == m.tables,
            m.grounded(*name, depth),
            m.wanted(*name),
            progress(m, old(finished)@, old(calced).deep_view()),
        ensures
            progress(m, final(finished)@, final(calced).deep_view()),
            final(finished)@.contains(*name),
            forall|a: Symbol| #[trigger]
                old(finished)@.contains(a) ==> final(finished)@.contains(a),
        decreases depth,
    {
        if calced.contains_key(name) {
            return;
        }
        if vars.contains(name) || tables.contains(name) {
            let one = SymbolSet::of(*name);
            proof {
                assert(one@ == m.reach(*name));
                lemma_finish(m, finished@, calced.deep_view(), *name);
            }
            calced.insert(*name, one);
            finished.push(*name);
            return;
        }
        let mut dep = SymbolSet::new();
        let deps = match graph.get(name) {
            Some(d) => d,
            None => {
                return;
            },
        };
        for i in 0..deps.items.len()
            invariant
                graph.deep_view() == m.dep_graph,
                vars@ == m.vars,
                tables@ == m.tables,
                !m.base().contains(*name),
                m.grounded(*name, depth),
                m.wanted(*name),
                table::get(m.dep_graph, *name) == Some(deps@),
                progress(m, finished@, calced.deep_view()),
                forall|a: Symbol| #[trigger]
                    old(finished)@.contains(a) ==> finished@.contains(a),
                forall|j: int| 0 <= j < i ==> finished@.contains(#[trigger] deps.items@[j]),
                forall|b: Symbol| #[trigger]
                    dep@.contains(b) <==> exists|j: int|
                        0 <= j < i && (#[trigger] deps.items@[j] == b || m.reach(
                            deps.items@[j],
                        ).contains(b)),
        {
            let d = deps.items[i];
            proof {
                assert(deps@.contains(d));
                assert(m.edge(*name, d));
                lemma_wanted_use(m, *name, d);
            }
            let ghost prior = finished@;
            Self::dfs_helper(
                graph,
                vars,
                tables,
                finished,
                calced,
                &d,
                Ghost(m),
                Ghost((depth - 1) as nat),
            );
            let ghost before = dep@;
            match calced.get(&d) {
                Some(s) => {
                    assert(s@ == m.reach(d));
                    dep.extend(s);
                },
                None => {
                    assert(false);
                },
            }
            dep.insert(d);
            proof {
                assert forall|b: Symbol| #[trigger] dep@.contains(b) <==> exists|j: int|
                    0 <= j < i + 1 && (#[trigger] deps.items@[j] == b || m.reach(
                        deps.items@[j],
                    ).contains(b)) by {
                    assert(dep@.contains(b) == (before.contains(b) || m.reach(d).contains(b) || b
                        == d));
                    if b == d || m.reach(d).contains(b) {
                        assert(deps.items@[i as int] == d);
                    }
                }
            }
        }
        if calced.contains_key(name) {
            return;
        }
        proof {
            assert forall|b: Symbol| dep@.contains(b) <==> m.reach(*name).contains(b) by {
                lemma_reach(m, *name, b);
                if dep@.contains(b) {
                    let j = choose|j: int|
                        0 <= j < deps.items@.len() && (#[trigger] deps.items@[j] == b || m.reach(
                            deps.items@[j],
                        ).contains(b));
                    assert(deps@.contains(deps.items@[j]));
                    assert(m.edge(*name, deps.items@[j]));
                }
                if m.reach(*name).contains(b) {
                    let d = choose|d: Symbol| #[trigger]
                        m.edge(*name, d) && (d == b || m.reach(d).contains(b));
                    assert(deps.items@.contains(d));
                    let j = choose|j: int| 0 <= j < deps.items@.len() && deps.items@[j] == d;
                    assert(deps.items@[j] == d);
                }
            }
            assert(dep@ =~= m.reach(*name));
            assert forall|d: Symbol| #[trigger] m.edge(*name, d) implies finished@.contains(d) by {
                assert(deps.items@.contains(d));
                let j = choose|j: int| 0 <= j < deps.items@.len() && deps.items@[j] == d;
                assert(finished@.contains(deps.items@[j]));
            }
            lemma_finish(m, finished@, calced.deep_view(), *name);
        }
        calced.insert(*name, dep);
        finished.push(*name);
    }

    /// Works out the order and the dependencies of all that is declared. What
    /// has been worked out already stays as it is.
    pub fn calc_dep_vars(&mut self)
        requires
            old(self).deep_view().closed_and_acyclic(),
            old(self).deep_view().fresh() || old(self).deep_view().solved(),
        ensures
            final(self).deep_view().solved(),
            old(self).deep_view().closed() ==> final(self).deep_view().exact(),
            old(self).deep_view().solved() ==> final(self).deep_view() == old(self).deep_view(),
            final(self).deep_view() == (DepM {
                topo_order: final(self).deep_view().topo_order,
                dep_transitive: final(self).deep_view().dep_transitive,
                dep_vars: final(self).deep_view().dep_vars,
                ..old(self).deep_view()
            }),
    {
        let ghost m = self.deep_view();
        if self.topo_order.len() > 0 || !self.dep_transitive.is_empty()
            || !self.dep_vars.is_empty() {
            proof {
                if m.closed() {
                    law_solved_is_exact(m);
                }
            }
            return;
        }
        let mut names = self.vars.dup();
        names.extend(&self.defs);
        names.extend(&self.tables);
        let mut base = self.vars.dup();
        base.extend(&self.tables);
        assert(names@ =~= m.names());
        assert(base@ =~= m.base());
        let mut order: Vec<Symbol> = Vec::new();
        let mut all: Table<Symbol, SymbolSet> = Table::new();
        let mut basics: Table<Symbol, SymbolSet> = Table::new();
        proof {
            assert forall|a: Symbol| #[trigger] table::bound(all.deep_view(), a) implies false by {
                table::lemma_slot(all.deep_view(), a);
            }
            assert forall|a: Symbol| #[trigger] table::bound(
                basics.deep_view(),
                a,
            ) implies false by {
                table::lemma_slot(basics.deep_view(), a);
            }
        }
        for i in 0..names.items.len()
            invariant
                m == self.deep_view(),
                m == old(self).deep_view(),
                m.closed_and_acyclic(),
                names@ == m.names(),
                progress(m, order@, all.deep_view()),
                table::keys_distinct(basics.deep_view()),
                basics.deep_view().len() == 0,
                forall|j: int| 0 <= j < i ==> order@.contains(#[trigger] names.items@[j]),
        {
            let name = names.items[i];
            let ghost prior = order@;
            let ghost depth = choose|n: nat| m.grounded(name, n);
            proof {
                assert(names@.contains(name));
                assert(m.names().contains(name));
            }
            Self::dfs_helper(
                &self.dep_graph,
                &self.vars,
                &self.tables,
                &mut order,
                &mut all,
                &name,
                Ghost(m),
                Ghost(depth),
            );
        }
        for i in 0..names.items.len()
            invariant
                m == self.deep_view(),
                names@ == m.names(),
                base@ == m.base(),
                progress(m, order@, all.deep_view()),
                table::keys_distinct(basics.deep_view()),
                forall|a: Symbol| #[trigger]
                    table::bound(basics.deep_view(), a) ==> m.names().contains(a),
                forall|j: int|
                    0 <= j < names.items@.len() ==> order@.contains(#[trigger] names.items@[j]),
                forall|j: int|
                    0 <= j < i ==> table::get(basics.deep_view(), #[trigger] names.items@[j])
                        == Some(m.reach(names.items@[j]).intersect(m.base())),
        {
            let name = names.items[i];
            match all.get(&name) {
                Some(s) => {
                    let ghost prior = basics.deep_view();
                    basics.insert(name, s.intersection(&base));
                    proof {
                        assert(names@.contains(name));
                        assert forall|a: Symbol| #[trigger] table::bound(
                            basics.deep_view(),
                            a,
                        ) implies m.names().contains(a) by {
                            table::lemma_put(prior, name, m.reach(name).intersect(m.base()), a);
                        }
                        table::lemma_put(prior, name, m.reach(name).intersect(m.base()), name);
                        assert forall|j: int| 0 <= j < i + 1 implies table::get(
                            basics.deep_view(),
                            #[trigger] names.items@[j],
                        ) == Some(m.reach(names.items@[j]).intersect(m.base())) by {
                            table::lemma_put(
                                prior,
                                name,
                                m.reach(name).intersect(m.base()),
                                names.items@[j],
                            );
                        }
                    }
                },
                None => {
                    assert(order@.contains(name));
                    assert(false);
                },
            }
        }
        self.topo_order = order;
        self.dep_transitive = all;
        self.dep_vars = basics;
        proof {
            let r = self.deep_view();
            lemma_same_graph(m, r);
            assert forall|a: Symbol| #[trigger] r.names().contains(a) implies r.topo_order.contains(
                a,
            ) && table::get(r.dep_vars, a) == Some(r.reach(a).intersect(r.base())) by {
                assert(names.items@.contains(a));
                let j = choose|j: int| 0 <= j < names.items@.len() && names.items@[j] == a;
                assert(order@.contains(names.items@[j]));
            }
            assert forall|a: Symbol| #[trigger] r.topo_order.contains(a) implies r.wanted(a) && (
            r.names().contains(a) || table::bound(r.dep_graph, a)) by {
                assert(m.wanted(a));
                if !m.names().contains(a) {
                    let b = choose|b: Symbol| #[trigger]
                        m.names().contains(b) && m.reach(b).contains(a);
                    assert(r.names().contains(b) && r.reach(b).contains(a));
                }
            }
            assert(r.solved());
            if m.closed() {
                law_solved_is_exact(r);
            }
            if m.solved() {
                lemma_nothing_declared(m);
                lemma_nothing_declared(r);
                assert(r.topo_order =~= m.topo_order);
                assert(r.dep_transitive =~= m.dep_transitive);
                assert(r.dep_vars =~= m.dep_vars);
            }
        }
    }
}

/// What the analysis has worked out so far: each finished name, after all that
/// it depends on.
pub open spec fn progress(
    m: DepM,
    finished: Seq<Symbol>,
    calced: Seq<(Symbol, Set<Symbol>)>,
) -> bool {
    &&& finished.no_duplicates()
    &&& m.ordered(finished)
    &&& forall|a: Symbol| #[trigger]
        finished.contains(a) ==> m.wanted(a) && (m.names().contains(a) || table::bound(
            m.dep_graph,
            a,
        ))
    &&& table::keys_distinct(calced)
    &&& forall|a: Symbol| #[trigger] finished.contains(a) <==> table::bound(calced, a)
    &&& forall|a: Symbol| #[trigger]
        table::bound(calced, a) ==> table::get(calced, a) == Some(m.reach(a))
}

/// Where nothing was worked out of a solved analysis, nothing is declared and
/// all is empty.
proof fn lemma_nothing_declared(m: DepM)
    requires
        m.solved(),
        m.fresh() || forall|a: Symbol| !(#[trigger] m.names().contains(a)),
    ensures
        m.fresh(),
        forall|a: Symbol| !(#[trigger] m.names().contains(a)),
{
    assert forall|a: Symbol| !(#[trigger] m.names().contains(a)) by {
        if m.names().contains(a) {
            assert(m.topo_order.contains(a));
        }
    }
    if m.topo_order.len() > 0 {
        assert(m.topo_order.contains(m.topo_order[0]));
    }
    if m.dep_transitive.len() > 0 {
        table::lemma_bound(m.dep_transitive, m.dep_transitive[0].0, 0);
        assert(m.topo_order.contains(m.dep_transitive[0].0));
    }
    if m.dep_vars.len() > 0 {
        table::lemma_bound(m.dep_vars, m.dep_vars[0].0, 0);
    }
}

/// Finishing one more name.
proof fn lemma_finish(m: DepM, finished: Seq<Symbol>, calced: Seq<(Symbol, Set<Symbol>)>, a: Symbol)
    requires
        progress(m, finished, calced),
        !table::bound(calced, a),
        m.wanted(a),
        m.names().contains(a) || table::bound(m.dep_graph, a),
        m.base().contains(a) || forall|d: Symbol| #[trigger]
            m.edge(a, d) ==> finished.contains(d),
    ensures
        progress(m, finished.push(a), table::put(calced, a, m.reach(a))),
        forall|x: Symbol| #[trigger]
            finished.push(a).contains(x) <==> finished.contains(x) || x == a,
{
    let f = finished.push(a);
    let c = table::put(calced, a, m.reach(a));
    assert(!finished.contains(a));
    assert forall|x: Symbol| #[trigger] f.contains(x) <==> finished.contains(x) || x == a by {
        if finished.contains(x) {
            let i = choose|i: int| 0 <= i < finished.len() && finished[i] == x;
            assert(f[i] == x);
        }
        assert(f[finished.len() as int] == a);
        if f.contains(x) && x != a {
            let i = choose|i: int| 0 <= i < f.len() && f[i] == x;
            assert(finished[i] == x);
        }
    }
    table::lemma_put(calced, a, m.reach(a), a);
    assert forall|x: Symbol| #[trigger] f.contains(x) <==> table::bound(c, x) by {
        table::lemma_put(calced, a, m.reach(a), x);
    }
    assert forall|x: Symbol| #[trigger] table::bound(c, x) implies table::get(c, x) == Some(
        m.reach(x),
    ) by {
        table::lemma_put(calced, a, m.reach(a), x);
        if x != a {
            assert(finished.contains(x));
        }
    }
    assert forall|i: int, j: int| 0 <= i < j < f.len() implies f[i] != f[j] by {
        if j == finished.len() {
            assert(finished[i] != a) by {
                if finished[i] == a {
                    assert(finished.contains(a));
                }
            }
        }
    }
    assert forall|i: int, d: Symbol|
        0 <= i < f.len() && !m.base().contains(f[i]) && #[trigger] m.edge(f[i], d) implies f.take(
        i,
    ).contains(d) by {
        if i < finished.len() {
            assert(finished.take(i) =~= f.take(i));
            assert(finished[i] == f[i]);
            assert(finished.take(i).contains(d));
        } else {
            assert(f.take(i) =~= finished);
        }
    }
}

/// A name whose uses are all grounded is grounded.
proof fn lemma_can_settle(m: DepM, settled: Set<Symbol>, a: Symbol)
    requires
        forall|x: Symbol| #[trigger] settled.contains(x) ==> exists|n: nat| m.grounded(x, n),
        settled.finite(),
        m.base().contains(a) || (table::bound(m.dep_graph, a) && forall|d: Symbol| #[trigger]
            m.edge(a, d) ==> settled.contains(d)),
    ensures
        exists|n: nat| m.grounded(a, n),
{
    if m.base().contains(a) {
        assert(m.grounded(a, 0));
    } else {
        let n = lemma_common_depth(m, settled);
        assert forall|d: Symbol| #[trigger] m.edge(a, d)
            implies m.grounded(d, ((n + 1) - 1) as nat) by {
            assert(settled.contains(d));
        }
        assert(m.grounded(a, n + 1));
    }
}

/// Finitely many grounded names are grounded within one common number of steps.
proof fn lemma_common_depth(m: DepM, s: Set<Symbol>) -> (n: nat)
    requires
        s.finite(),
        forall|x: Symbol| #[trigger] s.contains(x) ==> exists|n: nat| m.grounded(x, n),
    ensures
        forall|x: Symbol| #[trigger] s.contains(x) ==> m.grounded(x, n),
    decreases s.len(),
{
    if s.len() == 0 {
        0
    } else {
        let x = s.choose();
        let k = lemma_common_depth(m, s.remove(x));
        let own = choose|n: nat| m.grounded(x, n);
        let n = if k > own { k } else { own };
        assert forall|y: Symbol| #[trigger] s.contains(y) implies m.grounded(y, n) by {
            if y == x {
                lemma_grounded_more(m, x, own, n);
            } else {
                assert(s.remove(x).contains(y));
                lemma_grounded_more(m, y, k, n);
            }
        }
        n
    }
}

/// Where no further name can be settled, the settled names are the grounded ones.
proof fn lemma_stuck(m: DepM, settled: Set<Symbol>, todo: Seq<Symbol>, all: Seq<Symbol>)
    requires
        forall|x: Symbol| #[trigger] settled.contains(x) ==> exists|n: nat| m.grounded(x, n),
        forall|a: Symbol| #[trigger]
            all.contains(a) <==> m.names().contains(a) || table::bound(m.dep_graph, a),
        forall|a: Symbol| #[trigger] all.contains(a) ==> settled.contains(a) || todo.contains(a),
        forall|j: int|
            0 <= j < todo.len() ==> !m.base().contains(#[trigger] todo[j]) && !(table::bound(
                m.dep_graph,
                todo[j],
            ) && forall|d: Symbol| #[trigger] m.edge(todo[j], d) ==> settled.contains(d)),
    ensures
        forall|a: Symbol| #[trigger]
            settled.contains(a) <==> exists|n: nat| m.grounded(a, n),
{
    assert forall|x: Symbol| #[trigger] m.base().contains(x) implies settled.contains(x) by {
        assert(m.names().contains(x));
        assert(all.contains(x));
        if todo.contains(x) {
            let j = choose|j: int| 0 <= j < todo.len() && todo[j] == x;
            assert(!m.base().contains(todo[j]));
        }
    }
    assert forall|x: Symbol|
        #[trigger] table::bound(m.dep_graph, x) && (forall|d: Symbol| #[trigger]
            m.edge(x, d) ==> settled.contains(d)) implies settled.contains(x) by {
        assert(all.contains(x));
        if todo.contains(x) {
            let j = choose|j: int| 0 <= j < todo.len() && todo[j] == x;
            assert(!m.base().contains(todo[j]));
        }
    }
    assert forall|a: Symbol| (exists|n: nat| m.grounded(a, n)) implies #[trigger] settled.contains(
        a,
    ) by {
        let n = choose|n: nat| m.grounded(a, n);
        lemma_settled(m, settled, a, n);
    }
}

/// The dependencies are a matter of the names and the graph alone.
proof fn lemma_same_graph(m: DepM, r: DepM)
    requires
        m.vars == r.vars,
        m.defs == r.defs,
        m.tables == r.tables,
        m.dep_graph == r.dep_graph,
    ensures
        m.base() == r.base(),
        m.names() == r.names(),
        forall|a: Symbol, b: Symbol| #[trigger] m.edge(a, b) == r.edge(a, b),
        forall|a: Symbol| #[trigger] m.reach(a) == r.reach(a),
        forall|o: Seq<Symbol>| #[trigger] m.ordered(o) == r.ordered(o),
{
    assert forall|a: Symbol| #[trigger] m.reach(a) == r.reach(a) by {
        assert forall|b: Symbol, n: nat| m.path(a, b, n) == r.path(a, b, n) by {
            lemma_same_path(m, r, a, b, n);
        }
        assert(m.reach(a) =~= r.reach(a));
    }
    assert forall|o: Seq<Symbol>| #[trigger] m.ordered(o) == r.ordered(o) by {
        if m.ordered(o) {
            assert forall|i: int, d: Symbol|
                0 <= i < o.len() && !r.base().contains(o[i]) && #[trigger] r.edge(
                    o[i],
                    d,
                ) implies o.take(i).contains(d) by {
                assert(m.edge(o[i], d));
            }
        }
        if r.ordered(o) {
            assert forall|i: int, d: Symbol|
                0 <= i < o.len() && !m.base().contains(o[i]) && #[trigger] m.edge(
                    o[i],
                    d,
                ) implies o.take(i).contains(d) by {
                assert(r.edge(o[i], d));
            }
        }
    }
}

proof fn lemma_same_path(m: DepM, r: DepM, a: Symbol, b: Symbol, n: nat)
    requires
        m.vars == r.vars,
        m.tables == r.tables,
        m.dep_graph == r.dep_graph,
    ensures
        m.path(a, b, n) == r.path(a, b, n),
    decreases n,
{
    if n > 0 {
        let k = (n - 1) as nat;
        assert forall|d: Symbol| m.path(d, b, k) == r.path(d, b, k) by {
            lemma_same_path(m, r, d, b, k);
        }
        assert forall|d: Symbol| #[trigger] m.edge(a, d) == r.edge(a, d) by {}
        if m.path(a, b, n) {
            let d = choose|d: Symbol| #[trigger]
                m.edge(a, d) && (d == b || m.path(d, b, (n - 1) as nat));
            assert(r.edge(a, d));
        }
        if r.path(a, b, n) {
            let d = choose|d: Symbol| #[trigger]
                r.edge(a, d) && (d == b || r.path(d, b, (n - 1) as nat));
            assert(m.edge(a, d));
        }
    }
}

} // verus!
