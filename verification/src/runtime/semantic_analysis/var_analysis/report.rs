//! A description of an analysis for a reader.

use crate::runtime::interner;
use crate::runtime::interner::{Interner, Symbol};
use crate::runtime::semantic_analysis::var_analysis::dep_analysis::DependAnalysis;
use crate::runtime::semantic_analysis::var_analysis::symbols::SymbolSet;
use vstd::prelude::*;

verus! {

/// The first `n` names, each with `after` behind it.
pub open spec fn names_text(
    v: Seq<Symbol>,
    names: Seq<Seq<char>>,
    after: Seq<char>,
    n: nat,
) -> Seq<char>
    decreases n,
{
    if n == 0 {
        seq![]
    } else {
        names_text(v, names, after, (n - 1) as nat) + interner::name_of(names, v[n - 1]) + after
    }
}

/// The first `n` names with what each of them depends on, a line each, in the
/// order in which they are kept.
pub open spec fn rows_text(v: Seq<(Symbol, SymbolSet)>, names: Seq<Seq<char>>, n: nat) -> Seq<char>
    decreases n,
{
    if n == 0 {
        seq![]
    } else {
        let items = v[n - 1].1.items@;
        rows_text(v, names, (n - 1) as nat) + interner::name_of(names, v[n - 1].0) + " -> "@
            + names_text(items, names, ","@, items.len()) + "\n"@
    }
}

/// The description of an analysis.
pub open spec fn report(d: DependAnalysis, names: Seq<Seq<char>>) -> Seq<char> {
    let graph = d.dep_graph.entries@;
    let vars = d.dep_vars.entries@;
    let order = d.topo_order@;
    "Dependency Graph \n"@ + rows_text(graph, names, graph.len())
        + "Transitive Dependency (Var only) \n"@ + rows_text(vars, names, vars.len())
        + "Topological Order \n"@ + names_text(order, names, " "@, order.len()) + "\n"@
}

fn write_names(v: &Vec<Symbol>, interner: &Interner, after: &str) -> (r: String)
    ensures
        r@ == names_text(v@, interner@, after@, v@.len()),
{
    let mut s = String::new();
    assert(s@ =~= Seq::<char>::empty());
    for i in 0..v.len()
        invariant
            s@ == names_text(v@, interner@, after@, i as nat),
    {
        s.append(interner.get(v[i]).as_str());
        s.append(after);
    }
    s
}

fn write_rows(v: &Vec<(Symbol, SymbolSet)>, interner: &Interner) -> (r: String)
    ensures
        r@ == rows_text(v@, interner@, v@.len()),
{
    let mut s = String::new();
    assert(s@ =~= Seq::<char>::empty());
    for i in 0..v.len()
        invariant
            s@ == rows_text(v@, interner@, i as nat),
    {
        s.append(interner.get(v[i].0).as_str());
        s.append(" -> ");
        s.append(write_names(&v[i].1.items, interner, ",").as_str());
        s.append("\n");
    }
    s
}

impl DependAnalysis {
    /// A description of the analysis.
    pub fn to_text(&self, interner: &Interner) -> (r: String)
        ensures
            r@ == report(*self, interner@),
    {
        let mut s = "Dependency Graph \n".to_owned();
        s.append(write_rows(&self.dep_graph.entries, interner).as_str());
        s.append("Transitive Dependency (Var only) \n");
        s.append(write_rows(&self.dep_vars.entries, interner).as_str());
        s.append("Topological Order \n");
        s.append(write_names(&self.topo_order, interner, " ").as_str());
        s.append("\n");
        s
    }
}

} // verus!
