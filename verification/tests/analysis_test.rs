use meerkat::runtime::ast::{Decl, Expr, Stmt, Value};
use meerkat::runtime::interner::Interner;
use meerkat::runtime::semantic_analysis::var_analysis::calc_dep_prog;
use meerkat::runtime::semantic_analysis::var_analysis::dep_analysis::DependAnalysis;

#[test]
fn test_calc_dep_prog_service() {
    let mut interner = Interner::new();
    let s = interner.insert("s");
    let x = interner.insert("x");
    let y = interner.insert("y");
    let stmts = vec![Stmt::Service {
        name: s,
        decls: vec![
            Decl::VarDecl {
                name: x,
                ty: None,
                val: Expr::Literal {
                    val: Value::Int { val: 1 },
                },
            },
            Decl::DefDecl {
                name: y,
                ty: None,
                val: Expr::Variable { name: x },
                is_pub: false,
            },
        ],
    }];

    let analyses = calc_dep_prog(&stmts);

    assert_eq!(analyses.len(), 1);
    assert_eq!(analyses[0].topo_order, vec![x, y]);
    assert_eq!(
        analyses[0].to_text(&interner),
        "Dependency Graph \nx -> \ny -> x,\nTransitive Dependency (Var only) \nx -> x,\ny -> x,\nTopological Order \nx y \n"
    );
}

#[test]
fn test_calc_dep_prog_update_service() {
    let mut interner = Interner::new();
    let s = interner.insert("s");
    let x = interner.insert("x");
    let y = interner.insert("y");
    let stmts = vec![Stmt::Update {
        service_name: s,
        decls: vec![
            Decl::VarDecl {
                name: x,
                ty: None,
                val: Expr::Literal {
                    val: Value::Int { val: 2 },
                },
            },
            Decl::DefDecl {
                name: y,
                ty: None,
                val: Expr::Variable { name: x },
                is_pub: true,
            },
        ],
    }];

    let analyses = calc_dep_prog(&stmts);

    assert_eq!(analyses.len(), 1);
    assert_eq!(analyses[0].topo_order, vec![x, y]);
}

/// The tables hold the declared names and nothing else, and a second
/// calculation changes nothing.
#[test]
fn calculation_is_exact_and_can_be_repeated() {
    let mut interner = Interner::new();
    let x = interner.insert("x");
    let y = interner.insert("y");
    let z = interner.insert("z");
    let decls = vec![
        Decl::VarDecl {
            name: x,
            ty: None,
            val: Expr::Literal {
                val: Value::Int { val: 1 },
            },
        },
        Decl::DefDecl {
            name: y,
            ty: None,
            val: Expr::Variable { name: x },
            is_pub: false,
        },
        Decl::DefDecl {
            name: z,
            ty: None,
            val: Expr::Variable { name: y },
            is_pub: false,
        },
    ];
    let mut analysis = DependAnalysis::new(&decls);
    assert!(analysis.analyzable());
    analysis.calc_dep_vars();
    assert_eq!(analysis.topo_order, vec![x, y, z]);
    assert_eq!(analysis.dep_transitive.len(), 3);
    assert_eq!(analysis.dep_vars.len(), 3);
    let of_z = analysis.dep_transitive.get(&z).unwrap();
    assert!(of_z.contains(&x) && of_z.contains(&y));
    assert!(!of_z.contains(&z));
    let vars_of_z = analysis.dep_vars.get(&z).unwrap();
    assert_eq!(vars_of_z.items, vec![x]);
    assert!(vars_of_z.items.iter().all(|v| of_z.contains(v)));

    let text = analysis.to_text(&interner);
    analysis.calc_dep_vars();
    assert_eq!(analysis.topo_order, vec![x, y, z]);
    assert_eq!(analysis.dep_transitive.len(), 3);
    assert_eq!(analysis.dep_vars.len(), 3);
    assert_eq!(analysis.to_text(&interner), text);
}
