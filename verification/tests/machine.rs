use lrfrp::ast::expressions::{
    ArrowExpr, BinOp, Expr, ExprBinary, ExprBlock, ExprCall, ExprIf, ExprIndex, ExprList,
    ExprLit, ExprPath, ExprTuple, Lit, LitInt, Stmt, StmtLocal, UnOp, ExprUnary,
};
use lrfrp::ast::patterns::{Pat, PatIdent, PatTuple};
use lrfrp::ast::types::{Type, TypePath};
use lrfrp::ast::{
    Ast, Field, FnArg, FrpStmtArrow, FrpStmtDependency, Item, ItemArgs, ItemDeclaration,
    ItemFn, ItemFrpStmt, ItemIn, ItemMod, ItemOut,
};
use lrfrp::lrfrp_ir::LrfrpIR;
use lrfrp::runtime::{Value, ValEnv, FRP};

fn ty(name: &str) -> Type {
    Type::Path(TypePath { ident: name.to_string() })
}

fn field(name: &str, t: &str) -> Field {
    Field { ident: name.to_string(), ty: ty(t) }
}

fn var(name: &str) -> Expr {
    Expr::Path(ExprPath { path: name.to_string() })
}

fn lit_int(v: i64) -> Expr {
    Expr::Lit(ExprLit { lit: Lit::Int(LitInt { value: v }) })
}

fn bin(a: Expr, op: BinOp, b: Expr) -> Expr {
    Expr::Binary(ExprBinary { lhs: Box::new(a), op, rhs: Box::new(b) })
}

fn let_eq(name: &str, e: Expr) -> Item {
    Item::FrpStmt(ItemFrpStmt::Dependency(FrpStmtDependency { path: name.to_string(), expr: e }))
}

fn let_delay(name: &str, t: &str, init: Expr, next: Expr) -> Item {
    Item::FrpStmt(ItemFrpStmt::Arrow(FrpStmtArrow {
        path: name.to_string(),
        ty: ty(t),
        arrow_expr: ArrowExpr { expr: Box::new(init) },
        expr: next,
    }))
}

fn env_of(pairs: Vec<(&str, Value)>) -> ValEnv {
    let mut e = ValEnv::new();
    for (n, v) in pairs {
        e.push(n.to_string(), v);
    }
    e
}

fn out_int(m: &FRP, name: &str) -> i64 {
    let out = m.sample().expect("the instance has ticked");
    match out.get(&name.to_string()) {
        Some(Value::Int(v)) => *v,
        other => panic!("expected an integer output, got {:?}", other),
    }
}

#[test]
fn accumulator_produces_running_sums() {
    // In { input } Out { output } Args { accumulator_init }
    // let output = input + prev;
    // let prev: Int <- delay accumulator_init -< output;
    let items = vec![
        Item::Mod(ItemMod { name: "Accumulator".to_string() }),
        Item::In(ItemIn { fields: vec![field("input", "Int")] }),
        Item::Out(ItemOut { fields: vec![field("output", "Int")] }),
        Item::Args(ItemArgs { fields: vec![field("accumulator_init", "Int")] }),
        let_eq("output", bin(var("input"), BinOp::Add, var("prev"))),
        let_delay("prev", "Int", var("accumulator_init"), var("output")),
    ];
    let ir = LrfrpIR::from_ast(Ast { items }).expect("the accumulator compiles");
    let args = env_of(vec![("accumulator_init", Value::Int(0))]);
    let mut m = FRP::new(ir, args).expect("construction succeeds");
    assert!(m.sample().is_none());
    let mut results = Vec::new();
    for i in [1i64, 2, 3] {
        let ok = m.run(&env_of(vec![("input", Value::Int(i))]));
        assert!(ok);
        results.push(out_int(&m, "output"));
    }
    assert_eq!(results, vec![1, 3, 6]);
}

#[test]
fn initial_register_values_come_from_args_alone() {
    // before the first tick the register already holds the
    // args-computed seed; the first tick reads that seed
    let items = vec![
        Item::Mod(ItemMod { name: "Seeded".to_string() }),
        Item::In(ItemIn { fields: vec![field("i", "Int")] }),
        Item::Out(ItemOut { fields: vec![field("o", "Int")] }),
        Item::Args(ItemArgs { fields: vec![field("seed", "Int")] }),
        let_eq("o", var("r")),
        let_delay("r", "Int", bin(var("seed"), BinOp::Mul, lit_int(10)), var("i")),
    ];
    let ir = LrfrpIR::from_ast(Ast { items }).expect("the program compiles");
    let mut m = FRP::new(ir, env_of(vec![("seed", Value::Int(4))])).expect("construction");
    assert!(m.run(&env_of(vec![("i", Value::Int(99))])));
    // the first observable output is the pre-tick register value
    assert_eq!(out_int(&m, "o"), 40);
    assert!(m.run(&env_of(vec![("i", Value::Int(5))])));
    assert_eq!(out_int(&m, "o"), 99);
}

#[test]
fn staged_commit_lets_registers_swap() {
    // two registers swap values every tick through combinational
    // reads of the pre-tick storage, which only works when all next
    // values are staged before any commit
    let items = vec![
        Item::Mod(ItemMod { name: "Swap".to_string() }),
        Item::In(ItemIn { fields: vec![field("i", "Int")] }),
        Item::Out(ItemOut { fields: vec![field("x", "Int"), field("y", "Int")] }),
        let_eq("x", var("p")),
        let_eq("y", var("q")),
        let_delay("p", "Int", lit_int(1), var("y")),
        let_delay("q", "Int", lit_int(2), var("x")),
    ];
    let ir = LrfrpIR::from_ast(Ast { items }).expect("the program compiles");
    let mut m = FRP::new(ir, ValEnv::new()).expect("construction");
    assert!(m.run(&env_of(vec![("i", Value::Int(0))])));
    assert_eq!((out_int(&m, "x"), out_int(&m, "y")), (1, 2));
    assert!(m.run(&env_of(vec![("i", Value::Int(0))])));
    assert_eq!((out_int(&m, "x"), out_int(&m, "y")), (2, 1));
    assert!(m.run(&env_of(vec![("i", Value::Int(0))])));
    assert_eq!((out_int(&m, "x"), out_int(&m, "y")), (1, 2));
}

#[test]
fn helper_functions_and_conditionals_evaluate() {
    // fn bump(v: Int) -> Int = v + offset;   (offset is an argument)
    // let o = if flag then bump(i) else 0 - i;
    let bump = ItemFn {
        ident: "bump".to_string(),
        inputs: vec![FnArg { pat: Pat::Ident(PatIdent { ident: "v".to_string() }), ty: ty("Int") }],
        output: ty("Int"),
        expr: Box::new(bin(var("v"), BinOp::Add, var("offset"))),
    };
    let cond = Expr::If(ExprIf {
        cond: Box::new(var("flag")),
        then_branch: Box::new(Expr::Call(ExprCall {
            func: ExprPath { path: "bump".to_string() },
            args: vec![var("i")],
        })),
        else_branch: Box::new(bin(lit_int(0), BinOp::Sub, var("i"))),
    });
    let items = vec![
        Item::Mod(ItemMod { name: "Cond".to_string() }),
        Item::In(ItemIn { fields: vec![field("i", "Int"), field("flag", "Bool")] }),
        Item::Out(ItemOut { fields: vec![field("o", "Int")] }),
        Item::Args(ItemArgs { fields: vec![field("offset", "Int")] }),
        Item::Declaration(ItemDeclaration::Fn(bump)),
        let_eq("o", cond),
    ];
    let ir = LrfrpIR::from_ast(Ast { items }).expect("the program compiles");
    let mut m = FRP::new(ir, env_of(vec![("offset", Value::Int(100))])).expect("construction");
    assert!(m.run(&env_of(vec![("i", Value::Int(7)), ("flag", Value::Bool(true))])));
    assert_eq!(out_int(&m, "o"), 107);
    assert!(m.run(&env_of(vec![("i", Value::Int(7)), ("flag", Value::Bool(false))])));
    assert_eq!(out_int(&m, "o"), -7);
}

#[test]
fn block_locals_shadow_globals() {
    // let o = { let i = 10; i + i };   the block-local shadows the input
    let block = Expr::Block(ExprBlock {
        stmts: vec![
            Stmt::Local(StmtLocal {
                pat: Pat::Ident(PatIdent { ident: "i".to_string() }),
                expr: Box::new(lit_int(10)),
            }),
            Stmt::Expr(bin(var("i"), BinOp::Add, var("i"))),
        ],
    });
    let items = vec![
        Item::Mod(ItemMod { name: "Shadow".to_string() }),
        Item::In(ItemIn { fields: vec![field("i", "Int")] }),
        Item::Out(ItemOut { fields: vec![field("o", "Int")] }),
        let_eq("o", block),
    ];
    let ir = LrfrpIR::from_ast(Ast { items }).expect("the program compiles");
    let mut m = FRP::new(ir, ValEnv::new()).expect("construction");
    assert!(m.run(&env_of(vec![("i", Value::Int(3))])));
    assert_eq!(out_int(&m, "o"), 20);
}

#[test]
fn division_by_zero_leaves_the_instance_unchanged() {
    let items = vec![
        Item::Mod(ItemMod { name: "Div".to_string() }),
        Item::In(ItemIn { fields: vec![field("i", "Int")] }),
        Item::Out(ItemOut { fields: vec![field("o", "Int")] }),
        let_eq("o", bin(lit_int(1), BinOp::Div, var("i"))),
    ];
    let ir = LrfrpIR::from_ast(Ast { items }).expect("the program compiles");
    let mut m = FRP::new(ir, ValEnv::new()).expect("construction");
    assert!(!m.run(&env_of(vec![("i", Value::Int(0))])));
    assert!(m.sample().is_none());
    assert!(m.run(&env_of(vec![("i", Value::Int(2))])));
    assert_eq!(out_int(&m, "o"), 0);
}

#[test]
fn overflowing_addition_is_stuck_rather_than_wrapped() {
    let items = vec![
        Item::Mod(ItemMod { name: "Ovf".to_string() }),
        Item::In(ItemIn { fields: vec![field("i", "Int")] }),
        Item::Out(ItemOut { fields: vec![field("o", "Int")] }),
        let_eq("o", bin(var("i"), BinOp::Add, lit_int(1))),
    ];
    let ir = LrfrpIR::from_ast(Ast { items }).expect("the program compiles");
    let mut m = FRP::new(ir, ValEnv::new()).expect("construction");
    assert!(!m.run(&env_of(vec![("i", Value::Int(i64::MAX))])));
    assert!(m.run(&env_of(vec![("i", Value::Int(41))])));
    assert_eq!(out_int(&m, "o"), 42);
}

#[test]
fn power_and_comparison_operators_evaluate() {
    let expr = bin(
        bin(lit_int(2), BinOp::Pow, var("i")),
        BinOp::Sub,
        lit_int(1),
    );
    let gate = Expr::If(ExprIf {
        cond: Box::new(bin(var("i"), BinOp::Ge, lit_int(0))),
        then_branch: Box::new(expr),
        else_branch: Box::new(lit_int(0)),
    });
    let items = vec![
        Item::Mod(ItemMod { name: "Pow".to_string() }),
        Item::In(ItemIn { fields: vec![field("i", "Int")] }),
        Item::Out(ItemOut { fields: vec![field("o", "Int")] }),
        let_eq("o", gate),
    ];
    let ir = LrfrpIR::from_ast(Ast { items }).expect("the program compiles");
    let mut m = FRP::new(ir, ValEnv::new()).expect("construction");
    assert!(m.run(&env_of(vec![("i", Value::Int(10))])));
    assert_eq!(out_int(&m, "o"), 1023);
}

#[test]
fn logical_negation_and_boolean_outputs_work() {
    let items = vec![
        Item::Mod(ItemMod { name: "Not".to_string() }),
        Item::In(ItemIn { fields: vec![field("b", "Bool")] }),
        Item::Out(ItemOut { fields: vec![field("o", "Bool")] }),
        let_eq(
            "o",
            Expr::Unary(ExprUnary { op: UnOp::Not, expr: Box::new(var("b")) }),
        ),
    ];
    let ir = LrfrpIR::from_ast(Ast { items }).expect("the program compiles");
    let mut m = FRP::new(ir, ValEnv::new()).expect("construction");
    assert!(m.run(&env_of(vec![("b", Value::Bool(false))])));
    let out = m.sample().expect("ticked");
    assert_eq!(out.get(&"o".to_string()), Some(&Value::Bool(true)));
    // a second tick with the other input flips the output
    assert!(m.run(&env_of(vec![("b", Value::Bool(true))])));
    let out = m.sample().expect("ticked");
    assert_eq!(out.get(&"o".to_string()), Some(&Value::Bool(false)));
}

#[test]
fn fan_controller_with_integer_thresholds() {
    // a hysteresis controller on scaled integer temperatures: the
    // threshold depends on the fan state of the previous tick
    let threshold = Expr::If(ExprIf {
        cond: Box::new(var("fan_delayed")),
        then_branch: Box::new(lit_int(745)),
        else_branch: Box::new(lit_int(755)),
    });
    let items = vec![
        Item::Mod(ItemMod { name: "FanController".to_string() }),
        Item::In(ItemIn { fields: vec![field("di", "Int")] }),
        Item::Out(ItemOut { fields: vec![field("fan", "Bool")] }),
        Item::Args(ItemArgs { fields: vec![field("fan_init", "Bool")] }),
        let_eq("th", threshold),
        let_eq("fan", bin(var("di"), BinOp::Ge, var("th"))),
        let_delay("fan_delayed", "Bool", var("fan_init"), var("fan")),
    ];
    let ir = LrfrpIR::from_ast(Ast { items }).expect("the controller compiles");
    let mut m = FRP::new(ir, env_of(vec![("fan_init", Value::Bool(false))])).expect("construction");
    let fan_at = |m: &FRP| match m.sample().unwrap().get(&"fan".to_string()) {
        Some(Value::Bool(b)) => *b,
        other => panic!("expected a boolean, got {:?}", other),
    };
    assert!(m.run(&env_of(vec![("di", Value::Int(750))])));
    assert!(!fan_at(&m));
    assert!(m.run(&env_of(vec![("di", Value::Int(756))])));
    assert!(fan_at(&m));
    // hysteresis: 750 keeps the fan on once it is running
    assert!(m.run(&env_of(vec![("di", Value::Int(750))])));
    assert!(fan_at(&m));
    assert!(m.run(&env_of(vec![("di", Value::Int(740))])));
    assert!(!fan_at(&m));
}

#[test]
fn list_indexing_is_bounds_checked() {
    // let o = [10, 20, 30][i];
    let list = Expr::List(ExprList { elems: vec![lit_int(10), lit_int(20), lit_int(30)] });
    let indexed = Expr::Index(ExprIndex { expr: Box::new(list), index: Box::new(var("i")) });
    let items = vec![
        Item::Mod(ItemMod { name: "Pick".to_string() }),
        Item::In(ItemIn { fields: vec![field("i", "Int")] }),
        Item::Out(ItemOut { fields: vec![field("o", "Int")] }),
        let_eq("o", indexed),
    ];
    let ir = LrfrpIR::from_ast(Ast { items }).expect("the program compiles");
    let mut m = FRP::new(ir, ValEnv::new()).expect("construction");
    assert!(m.run(&env_of(vec![("i", Value::Int(1))])));
    assert_eq!(out_int(&m, "o"), 20);
    // out of bounds: the tick is stuck and the instance unchanged
    assert!(!m.run(&env_of(vec![("i", Value::Int(5))])));
    assert_eq!(out_int(&m, "o"), 20);
}

#[test]
fn tuple_patterns_destructure_block_locals() {
    // let o = { let (a, b) = (i, 2); a * b };
    let pair = Expr::Tuple(ExprTuple { elems: vec![var("i"), lit_int(2)] });
    let block = Expr::Block(ExprBlock {
        stmts: vec![
            Stmt::Local(StmtLocal {
                pat: Pat::Tuple(PatTuple {
                    elems: vec![
                        Pat::Ident(PatIdent { ident: "a".to_string() }),
                        Pat::Ident(PatIdent { ident: "b".to_string() }),
                    ],
                }),
                expr: Box::new(pair),
            }),
            Stmt::Expr(bin(var("a"), BinOp::Mul, var("b"))),
        ],
    });
    let items = vec![
        Item::Mod(ItemMod { name: "Pair".to_string() }),
        Item::In(ItemIn { fields: vec![field("i", "Int")] }),
        Item::Out(ItemOut { fields: vec![field("o", "Int")] }),
        let_eq("o", block),
    ];
    let ir = LrfrpIR::from_ast(Ast { items }).expect("the program compiles");
    let mut m = FRP::new(ir, ValEnv::new()).expect("construction");
    assert!(m.run(&env_of(vec![("i", Value::Int(21))])));
    assert_eq!(out_int(&m, "o"), 42);
}
