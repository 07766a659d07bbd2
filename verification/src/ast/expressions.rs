use vstd::prelude::*;

use super::patterns::Pat;
use super::types::Type;

verus! {

/// The initializer half of a register equation, written `delay init`.
#[derive(Debug, PartialEq)]
pub struct ArrowExpr {
    pub expr: Box<Expr>,
}

/// An expression of the surface language.
#[derive(Debug, PartialEq)]
pub enum Expr {
    Unary(ExprUnary),
    Binary(ExprBinary),
    Block(ExprBlock),
    Call(ExprCall),
    Field(ExprField),
    If(ExprIf),
    Index(ExprIndex),
    Lit(ExprLit),
    Paren(ExprParen),
    Tuple(ExprTuple),
    Path(ExprPath),
    List(ExprList),
    Type(ExprType),
}

/// A reference to a named signal, argument, register or function.
#[derive(Debug, PartialEq)]
pub struct ExprPath {
    pub path: String,
}

impl ExprPath {
    /// The identifier this path consists of.
    pub fn get_ident(&self) -> (r: &String)
        ensures
            r == &self.path,
    {
        &self.path
    }
}

/// A tuple expression `(a, b, ...)`; the empty tuple is the unit value.
#[derive(Debug, PartialEq)]
pub struct ExprTuple {
    pub elems: Vec<Expr>,
}

/// A parenthesized expression.
#[derive(Debug, PartialEq)]
pub struct ExprParen {
    pub expr: Box<Expr>,
}

/// A literal expression.
#[derive(Debug, PartialEq)]
pub struct ExprLit {
    pub lit: Lit,
}

/// An index access `base[index]`.
#[derive(Debug, PartialEq)]
pub struct ExprIndex {
    pub expr: Box<Expr>,
    pub index: Box<Expr>,
}

/// A conditional `if cond then a else b`.
#[derive(Debug, PartialEq)]
pub struct ExprIf {
    pub cond: Box<Expr>,
    pub then_branch: Box<Expr>,
    pub else_branch: Box<Expr>,
}

/// A type ascription `expr : T`.
#[derive(Debug, PartialEq)]
pub struct ExprType {
    pub expr: Box<Expr>,
    pub ty: Box<Type>,
}

/// A block expression `{ let x = ...; ...; result }`.
#[derive(Debug, PartialEq)]
pub struct ExprBlock {
    pub stmts: Vec<Stmt>,
}

/// A field access `base.member`.
#[derive(Debug, PartialEq)]
pub struct ExprField {
    pub base: Box<Expr>,
    pub member: String,
}

/// A unary operation.
#[derive(Debug, PartialEq)]
pub struct ExprUnary {
    pub op: UnOp,
    pub expr: Box<Expr>,
}

/// A binary operation.
#[derive(Debug, PartialEq)]
pub struct ExprBinary {
    pub lhs: Box<Expr>,
    pub op: BinOp,
    pub rhs: Box<Expr>,
}

/// The unary operators.
#[derive(Debug, Clone, Copy, PartialEq, Eq)]
pub enum UnOp {
    Not,
    Neg,
}

/// A list literal `[a, b, ...]`.
#[derive(Debug, PartialEq)]
pub struct ExprList {
    pub elems: Vec<Expr>,
}

/// A call `f(a, b, ...)`; the callee is itself a name that is read.
#[derive(Debug, PartialEq)]
pub struct ExprCall {
    pub func: ExprPath,
    pub args: Vec<Expr>,
}

/// The binary operators, including the power operator `**`.
#[derive(Debug, Clone, Copy, PartialEq, Eq)]
pub enum BinOp {
    Add,
    Sub,
    Mul,
    Div,
    Rem,
    And,
    Or,
    BitXor,
    BitAnd,
    BitOr,
    Shl,
    Shr,
    Eq,
    Lt,
    Le,
    Ne,
    Ge,
    Gt,
    Pow,
}

/// A literal: an integer or one of the two boolean keywords.
#[derive(Debug, PartialEq)]
pub enum Lit {
    Int(LitInt),
    Bool(LitBool),
}

/// An integer literal.
#[derive(Debug, PartialEq)]
pub struct LitInt {
    pub value: i64,
}

/// A boolean literal.
#[derive(Debug, PartialEq)]
pub struct LitBool {
    pub value: bool,
}

/// A statement inside a block expression.
#[derive(Debug, PartialEq)]
pub enum Stmt {
    Local(StmtLocal),
    Expr(Expr),
}

/// A block-local binding `let pat = expr;`.
#[derive(Debug, PartialEq)]
pub struct StmtLocal {
    pub pat: Pat,
    pub expr: Box<Expr>,
}

/// Binding strength of the binary operators, weakest first.
#[derive(Debug, Clone, Copy, PartialEq, Eq)]
pub enum Precedence {
    Any,
    Or,
    And,
    Compare,
    BitOr,
    BitXor,
    BitAnd,
    Shift,
    Arithmetic,
    Term,
    Pow,
    Cast,
}

/// The precedence level of a binary operator.
pub open spec fn spec_precedence_of(op: BinOp) -> Precedence {
    match op {
        BinOp::Add | BinOp::Sub => Precedence::Arithmetic,
        BinOp::Mul | BinOp::Div | BinOp::Rem => Precedence::Term,
        BinOp::And => Precedence::And,
        BinOp::Or => Precedence::Or,
        BinOp::BitXor => Precedence::BitXor,
        BinOp::BitAnd => Precedence::BitAnd,
        BinOp::BitOr => Precedence::BitOr,
        BinOp::Shl | BinOp::Shr => Precedence::Shift,
        BinOp::Eq | BinOp::Lt | BinOp::Le | BinOp::Ne | BinOp::Ge | BinOp::Gt
            => Precedence::Compare,
        BinOp::Pow => Precedence::Pow,
    }
}

impl Precedence {
    /// The precedence level of a binary operator.
    pub fn of(op: &BinOp) -> (r: Precedence)
        ensures
            r == spec_precedence_of(*op),
    {
        match *op {
            BinOp::Add | BinOp::Sub => Precedence::Arithmetic,
            BinOp::Mul | BinOp::Div | BinOp::Rem => Precedence::Term,
            BinOp::And => Precedence::And,
            BinOp::Or => Precedence::Or,
            BinOp::BitXor => Precedence::BitXor,
            BinOp::BitAnd => Precedence::BitAnd,
            BinOp::BitOr => Precedence::BitOr,
            BinOp::Shl | BinOp::Shr => Precedence::Shift,
            BinOp::Eq | BinOp::Lt | BinOp::Le | BinOp::Ne | BinOp::Ge | BinOp::Gt
                => Precedence::Compare,
            BinOp::Pow => Precedence::Pow,
        }
    }
}

} // verus!
