use meerkat::runtime::ast::{ActionStmt, Decl, Expr, Stmt};
use meerkat::runtime::interner::Interner;
use meerkat::runtime::parser::parse_string;
use meerkat::runtime::semantic_analysis::typecheck::types::Type;
use meerkat::runtime::semantic_analysis::typecheck::TypecheckEnv;
use meerkat::runtime::semantic_analysis::var_analysis::dep_analysis::DependAnalysis;
use meerkat::runtime::semantic_analysis::var_analysis::symbols::SymbolSet;
use meerkat::runtime::table::Table;

fn expression(input: &str, interner: &mut Interner) -> Expr {
    match parse_string(&format!("{};", input), interner)
        .unwrap()
        .remove(0)
    {
        Stmt::ActionStmt(ActionStmt::Expr(e)) => e,
        other => panic!("unexpected {:?}", other),
    }
}

fn declarations(input: &str, interner: &mut Interner) -> Vec<Decl> {
    match parse_string(&format!("service s {{ {} }}", input), interner)
        .unwrap()
        .remove(0)
    {
        Stmt::Service { decls, .. } => decls,
        other => panic!("unexpected {:?}", other),
    }
}

fn inferred(input: &str) -> Option<Type> {
    let mut interner = Interner::new();
    let e = expression(input, &mut interner);
    let mut env = TypecheckEnv::new();
    let t = env.try_infer_expr(&e)?;
    Some(env.find(&t))
}

#[test]
fn types_are_inferred() {
    assert_eq!(inferred("1 + 2"), Some(Type::Int));
    assert_eq!(inferred("1 < 2"), Some(Type::Bool));
    assert_eq!(inferred("\"a\""), Some(Type::String));
    assert_eq!(inferred("1 + true"), None);
    assert_eq!(inferred("if true then 1 else 2"), Some(Type::Int));
    assert_eq!(inferred("if 1 then 1 else 2"), None);
    assert_eq!(inferred("if true then 1 else false"), None);
    assert_eq!(
        inferred("fn(x) => x + 1"),
        Some(Type::Fun(vec![Type::Int], Box::new(Type::Int)))
    );
    assert_eq!(inferred("(fn(x) => x)(true)"), Some(Type::Bool));
    assert_eq!(inferred("(fn(x) => x + 1)(true)"), None);
}

#[test]
fn declarations_are_checked() {
    let mut interner = Interner::new();
    let decls = declarations("var x = 1; def y = x + 1; def z = y == true;", &mut interner);
    let mut env = TypecheckEnv::new();
    assert!(env.try_typecheck_decl(&decls[0]));
    assert!(env.try_typecheck_decl(&decls[1]));
    assert!(!env.try_typecheck_decl(&decls[2]));
}

#[test]
fn actions_are_checked() {
    let mut interner = Interner::new();
    let mut env = TypecheckEnv::new();
    let mut stmts = |text: &str| -> Vec<ActionStmt> {
        parse_string(text, &mut interner)
            .unwrap()
            .into_iter()
            .map(|s| match s {
                Stmt::ActionStmt(a) => a,
                other => panic!("unexpected {:?}", other),
            })
            .collect()
    };
    let good = stmts("assert (1 == 1);");
    let bad = stmts("assert (1);");
    let worse = stmts("do 1;");
    assert!(env.try_typecheck_action(&good));
    assert!(!env.try_typecheck_action(&bad));
    assert!(!env.try_typecheck_action(&worse));
}

/// Equated types are the same afterwards, and a type cannot hold itself
#[test]
fn types_are_equated() {
    let mut env = TypecheckEnv::new();
    let a = env.gen_typevar().unwrap();
    let b = env.gen_typevar().unwrap();
    assert_ne!(a, b);
    assert!(env.unify(&a, &b));
    assert!(env.unify(&b, &Type::Bool));
    assert_eq!(env.find(&a), Type::Bool);
    assert!(!env.dup().unify(&a, &Type::Int));
    let c = env.gen_typevar().unwrap();
    let itself = Type::Fun(vec![c.clone()], Box::new(Type::Int));
    assert!(!env.dup().unify(&c, &itself));
}

/// Only free names are renamed
#[test]
fn free_names_are_renamed() {
    let mut interner = Interner::new();
    let mut e = expression("fn(x) => x + y + z", &mut interner);
    let x = interner.insert("x");
    let y = interner.insert("y");
    let w = interner.insert("w");
    let mut renames = Table::new();
    renames.insert(x, w);
    renames.insert(y, w);
    e.alpha_rename(&SymbolSet::new(), &renames);
    assert_eq!(e, expression("fn(x) => x + w + z", &mut interner));
}

/// After renaming the free names are the renamed ones, whatever is reactive
#[test]
fn free_names_after_renaming() {
    let mut interner = Interner::new();
    let x = interner.insert("x");
    let y = interner.insert("y");
    let z = interner.insert("z");
    let w = interner.insert("w");
    let mut renames = Table::new();
    renames.insert(x, w);
    renames.insert(y, w);
    for reactive in [SymbolSet::new(), SymbolSet::of(z)] {
        let mut e = expression("(fn(x) => x + y)(z) + (if x then s.m else z)", &mut interner);
        e.alpha_rename(&SymbolSet::new(), &renames);
        let free = e.free_var(&reactive, &SymbolSet::new());
        assert!(free.contains(&w) && free.contains(&z));
        assert!(!free.contains(&x) && !free.contains(&y));
        assert_eq!(free.items.len(), 2);
        assert_eq!(
            e,
            expression("(fn(x) => x + w)(z) + (if w then s.m else z)", &mut interner)
        );
    }
}

/// What can be worked out, and what goes round in circles
#[test]
fn circles_are_found() {
    let mut interner = Interner::new();
    let good = declarations("var x = 1; def y = x; def z = y + x;", &mut interner);
    let mut analysis = DependAnalysis::new(&good);
    assert!(analysis.analyzable());
    analysis.calc_dep_vars();
    let x = interner.insert("x");
    let y = interner.insert("y");
    let z = interner.insert("z");
    assert_eq!(analysis.topo_order, vec![x, y, z]);
    let of_z = analysis.dep_vars.get(&z).unwrap();
    assert!(of_z.contains(&x));
    assert!(!of_z.contains(&y));
    let circle = declarations("def y = y + 1;", &mut interner);
    assert!(!DependAnalysis::new(&circle).analyzable());
}
