use vstd::prelude::*;

pub mod expressions;
pub mod patterns;
pub mod types;

use expressions::{ArrowExpr, Expr};

verus! {

/// A whole program, as the parser hands it over: an unordered list of
/// sections, declarations and equations.
#[derive(Debug, PartialEq)]
pub struct Ast {
    pub items: Vec<Item>,
}

/// One top-level item of a program.
#[derive(Debug, PartialEq)]
pub enum Item {
    Mod(ItemMod),
    In(ItemIn),
    Out(ItemOut),
    Args(ItemArgs),
    FrpStmt(ItemFrpStmt),
    Declaration(ItemDeclaration),
}

/// The `mod Name;` header naming the compiled module.
#[derive(Debug, PartialEq)]
pub struct ItemMod {
    pub name: String,
}

/// A declared field: a name with its concrete type.
#[derive(Debug, PartialEq)]
pub struct Field {
    pub ident: String,
    pub ty: types::Type,
}

/// The `In { ... }` section: signals supplied anew each tick.
#[derive(Debug, PartialEq)]
pub struct ItemIn {
    pub fields: Vec<Field>,
}

/// The `Out { ... }` section: signals the program must compute each tick.
#[derive(Debug, PartialEq)]
pub struct ItemOut {
    pub fields: Vec<Field>,
}

/// The optional `Args { ... }` section: constants supplied at construction.
#[derive(Debug, PartialEq)]
pub struct ItemArgs {
    pub fields: Vec<Field>,
}

/// A top-level declaration besides the equations.
#[derive(Debug, PartialEq)]
pub enum ItemDeclaration {
    Struct(ItemStruct),
    Enum(ItemEnum),
    Fn(ItemFn),
}

/// A user struct declaration; parsed but not yet supported by the core.
#[derive(Debug, PartialEq)]
pub struct ItemStruct {
    pub ident: String,
}

/// A user enum declaration; parsed but not yet supported by the core.
#[derive(Debug, PartialEq)]
pub struct ItemEnum {
    pub ident: String,
}

/// A pure helper function `fn name(arg: T, ...) -> T = expr;`.
#[derive(Debug, PartialEq)]
pub struct ItemFn {
    pub ident: String,
    pub inputs: Vec<FnArg>,
    pub output: types::Type,
    pub expr: Box<Expr>,
}

/// One parameter of a helper function.
#[derive(Debug, PartialEq)]
pub struct FnArg {
    pub pat: patterns::Pat,
    pub ty: types::Type,
}

/// An equation: either a combinational binding or a register binding.
#[derive(Debug, PartialEq)]
pub enum ItemFrpStmt {
    Dependency(FrpStmtDependency),
    Arrow(FrpStmtArrow),
}

/// A combinational equation `let name = expr;` defining a local or output
/// signal from same-tick values.
#[derive(Debug, PartialEq)]
pub struct FrpStmtDependency {
    pub path: String,
    pub expr: Expr,
}

/// A register equation `let name: T <- delay init -< next;`: `init` seeds
/// the register before the first tick, `next` is stored for the next tick.
#[derive(Debug, PartialEq)]
pub struct FrpStmtArrow {
    pub path: String,
    pub ty: types::Type,
    pub arrow_expr: ArrowExpr,
    pub expr: Expr,
}

} // verus!
