use lrfrp::ast::expressions::{
    BinOp, Expr, ExprBinary, ExprLit, ExprPath, Lit, LitInt,
};
use lrfrp::ast::types::{Type, TypePath};
use lrfrp::ast::{
    Ast, Field, FrpStmtArrow, FrpStmtDependency, Item, ItemFrpStmt, ItemIn, ItemMod, ItemOut,
};
use lrfrp::ast::expressions::ArrowExpr;
use lrfrp::lrfrp_ir::deps_check::collect_global_idents;
use lrfrp::lrfrp_ir::error::Error;
use lrfrp::lrfrp_ir::types::{MaybeType, Type as Cat, TypeLifted};
use lrfrp::lrfrp_ir::LrfrpIR;

fn ty(name: &str) -> Type {
    Type::Path(TypePath { ident: name.to_string() })
}

fn field(name: &str, t: &str) -> Field {
    Field { ident: name.to_string(), ty: ty(t) }
}

fn var(name: &str) -> Expr {
    Expr::Path(ExprPath { path: name.to_string() })
}

fn lit_int(v: i64) -> Expr {
    Expr::Lit(ExprLit { lit: Lit::Int(LitInt { value: v }) })
}

fn add(a: Expr, b: Expr) -> Expr {
    Expr::Binary(ExprBinary { lhs: Box::new(a), op: BinOp::Add, rhs: Box::new(b) })
}

fn let_eq(name: &str, e: Expr) -> Item {
    Item::FrpStmt(ItemFrpStmt::Dependency(FrpStmtDependency { path: name.to_string(), expr: e }))
}

fn let_delay(name: &str, t: &str, init: Expr, next: Expr) -> Item {
    Item::FrpStmt(ItemFrpStmt::Arrow(FrpStmtArrow {
        path: name.to_string(),
        ty: ty(t),
        arrow_expr: ArrowExpr { expr: Box::new(init) },
        expr: next,
    }))
}

fn header(ins: Vec<Field>, outs: Vec<Field>) -> Vec<Item> {
    vec![
        Item::Mod(ItemMod { name: "M".to_string() }),
        Item::In(ItemIn { fields: ins }),
        Item::Out(ItemOut { fields: outs }),
    ]
}

#[test]
fn cyclic_combinational_pair_is_rejected() {
    let mut items = header(vec![field("i", "Int")], vec![field("a", "Int")]);
    items.push(let_eq("a", var("b")));
    items.push(let_eq("b", var("a")));
    let r = LrfrpIR::from_ast(Ast { items });
    let es = r.err().expect("a cyclic program must be rejected");
    assert_eq!(es.len(), 1);
    match &es[0] {
        Error::CyclicDependency(n) => {
            assert!(n == "a" || n == "b");
        }
        other => panic!("expected a cyclic-dependency error, got {:?}", other),
    }
}

#[test]
fn duplicate_definition_is_rejected() {
    let mut items = header(vec![field("i", "Int")], vec![field("a", "Int")]);
    items.push(let_eq("a", lit_int(1)));
    items.push(let_eq("a", lit_int(2)));
    let r = LrfrpIR::from_ast(Ast { items });
    let es = r.err().expect("a duplicate definition must be rejected");
    match &es[0] {
        Error::MultipleDefinition(n) => assert_eq!(n, "a"),
        other => panic!("expected a multiple-definition error, got {:?}", other),
    }
}

#[test]
fn uncomputed_output_is_rejected() {
    let items = header(vec![field("i", "Int")], vec![field("x", "Int")]);
    let r = LrfrpIR::from_ast(Ast { items });
    let es = r.err().expect("an uncomputed output must be rejected");
    match &es[0] {
        Error::NotCalculated(n) => assert_eq!(n, "x"),
        other => panic!("expected a not-calculated error, got {:?}", other),
    }
}

#[test]
fn register_as_output_is_rejected() {
    let mut items = header(vec![field("i", "Int")], vec![field("x", "Int")]);
    items.push(let_delay("x", "Int", lit_int(0), add(var("x"), lit_int(1))));
    let r = LrfrpIR::from_ast(Ast { items });
    let es = r.err().expect("a register used as output must be rejected");
    match &es[0] {
        Error::CellAsOutput(n) => assert_eq!(n, "x"),
        other => panic!("expected a cell-as-output error, got {:?}", other),
    }
}

#[test]
fn undefined_variable_is_rejected() {
    let mut items = header(vec![field("i", "Int")], vec![field("a", "Int")]);
    items.push(let_eq("a", var("nowhere")));
    let r = LrfrpIR::from_ast(Ast { items });
    let es = r.err().expect("an undefined name must be rejected");
    match &es[0] {
        Error::UndefinedVariable(n) => assert_eq!(n, "nowhere"),
        other => panic!("expected an undefined-variable error, got {:?}", other),
    }
}

#[test]
fn register_initializer_reading_an_input_is_rejected() {
    let mut items = header(vec![field("i", "Int")], vec![field("a", "Int")]);
    items.push(let_eq("a", var("i")));
    items.push(let_delay("r", "Int", var("i"), var("a")));
    let r = LrfrpIR::from_ast(Ast { items });
    let es = r.err().expect("a tick-dependent initializer must be rejected");
    match &es[0] {
        Error::LiftedTypeNotAllowed(n, _) => assert_eq!(n, "i"),
        other => panic!("expected a lifted-type error, got {:?}", other),
    }
}

#[test]
fn duplicated_section_is_rejected() {
    let mut items = header(vec![field("i", "Int")], vec![field("a", "Int")]);
    items.push(Item::Mod(ItemMod { name: "N".to_string() }));
    items.push(let_eq("a", lit_int(1)));
    let r = LrfrpIR::from_ast(Ast { items });
    let es = r.err().expect("a duplicated section must be rejected");
    match &es[0] {
        Error::DuplicatedItem(n) => assert_eq!(n, "mod"),
        other => panic!("expected a duplicated-item error, got {:?}", other),
    }
}

#[test]
fn missing_output_section_is_rejected() {
    let items = vec![
        Item::Mod(ItemMod { name: "M".to_string() }),
        Item::In(ItemIn { fields: vec![field("i", "Int")] }),
    ];
    let r = LrfrpIR::from_ast(Ast { items });
    let es = r.err().expect("a missing section must be rejected");
    match &es[0] {
        Error::ItemNotFound(n) => assert_eq!(n, "Out"),
        other => panic!("expected an item-not-found error, got {:?}", other),
    }
}

#[test]
fn mutual_register_updates_form_a_cycle() {
    // the register-update graph is sorted on its own and must be
    // acyclic: two registers whose next values read each other directly
    // are rejected
    let mut items = header(vec![field("i", "Int")], vec![field("a", "Int")]);
    items.push(let_eq("a", var("i")));
    items.push(let_delay("p", "Int", lit_int(1), var("q")));
    items.push(let_delay("q", "Int", lit_int(2), var("p")));
    let r = LrfrpIR::from_ast(Ast { items });
    let es = r.err().expect("a register-update cycle must be rejected");
    match &es[0] {
        Error::CyclicDependency(n) => assert!(n == "p" || n == "q"),
        other => panic!("expected a cyclic-dependency error, got {:?}", other),
    }
}

#[test]
fn self_reference_through_a_register_is_accepted() {
    // feedback through a register is legal: the read is pre-tick storage
    let mut items = header(vec![field("input", "Int")], vec![field("output", "Int")]);
    items.push(let_eq("output", add(var("input"), var("prev"))));
    items.push(let_delay("prev", "Int", lit_int(0), var("output")));
    let r = LrfrpIR::from_ast(Ast { items });
    assert!(r.is_ok());
}

#[test]
fn compiling_twice_yields_identical_plans() {
    let build = || {
        let mut items = header(
            vec![field("i", "Int")],
            vec![field("a", "Int"), field("b", "Int")],
        );
        // declared out of dependency order on purpose
        items.push(let_eq("a", add(var("b"), var("c"))));
        items.push(let_eq("b", add(var("c"), lit_int(1))));
        items.push(let_eq("c", var("i")));
        items.push(let_delay("r", "Int", lit_int(7), add(var("c"), var("a"))));
        Ast { items }
    };
    let p1 = LrfrpIR::from_ast(build()).expect("the program compiles");
    let p2 = LrfrpIR::from_ast(build()).expect("the program compiles");
    assert_eq!(p1, p2);
}

#[test]
fn combinational_order_respects_dependencies() {
    let mut items = header(vec![field("i", "Int")], vec![field("a", "Int")]);
    items.push(let_eq("a", add(var("b"), lit_int(1))));
    items.push(let_eq("b", add(var("c"), lit_int(1))));
    items.push(let_eq("c", var("i")));
    let ir = LrfrpIR::from_ast(Ast { items }).expect("the program compiles");
    let order: Vec<&str> = ir
        .body
        .dependencies
        .iter()
        .map(|d| d.path.as_str())
        .collect();
    let pos = |n: &str| order.iter().position(|x| *x == n).unwrap();
    assert!(pos("c") < pos("b"));
    assert!(pos("b") < pos("a"));
    assert_eq!(order.len(), 3);
}

#[test]
fn register_keeps_its_declared_type_in_the_plan() {
    let mut items = header(vec![field("i", "Int")], vec![field("a", "Int")]);
    items.push(let_eq("a", var("i")));
    items.push(let_delay("r", "Bool", var("flag"), var("flag")));
    // `flag` must come from somewhere constant: use an Args section
    items.push(Item::Args(lrfrp::ast::ItemArgs { fields: vec![field("flag", "Bool")] }));
    let ir = LrfrpIR::from_ast(Ast { items }).expect("the program compiles");
    assert_eq!(ir.body.arrows.len(), 1);
    assert_eq!(ir.body.arrows[0].path, "r");
    assert_eq!(ir.body.arrows[0].ty, ty("Bool"));
}

#[test]
fn classification_surfaces_the_register_declared_type() {
    let input = ItemIn { fields: vec![field("i", "Int")] };
    let output = ItemOut { fields: vec![field("a", "Int")] };
    let args = None;
    let decls = vec![];
    let stmts = vec![
        ItemFrpStmt::Dependency(FrpStmtDependency { path: "a".to_string(), expr: var("i") }),
        ItemFrpStmt::Arrow(FrpStmtArrow {
            path: "r".to_string(),
            ty: ty("Bool"),
            arrow_expr: ArrowExpr { expr: Box::new(lit_int(0)) },
            expr: var("a"),
        }),
    ];
    let env = collect_global_idents(&input, &output, &args, &decls, &stmts)
        .expect("the symbol table builds");
    match env.get(&"r".to_string()) {
        Some(Cat::Lifted(TypeLifted::Cell(MaybeType::Resolved(t)))) => {
            assert_eq!(*t, ty("Bool"));
        }
        other => panic!("the register must resolve to its declared cell type, got {:?}", other),
    }
}
