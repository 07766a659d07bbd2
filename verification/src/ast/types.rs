use vstd::prelude::*;

verus! {

/// A type expression of the surface language, as the parser hands it over.
/// The core never interprets these beyond carrying them into the symbol
/// table and the evaluation plan.
#[derive(Debug, PartialEq)]
pub enum Type {
    Path(TypePath),
    Paren(TypeParen),
    Tuple(TypeTuple),
    List(TypeList),
    Infer(TypeInfer),
}

/// A named type such as `Int` or `Bool`.
#[derive(Debug, PartialEq)]
pub struct TypePath {
    pub ident: String,
}

/// A parenthesized type `(T)`.
#[derive(Debug, PartialEq)]
pub struct TypeParen {
    pub elem: Box<Type>,
}

/// A tuple type `(T, U, ...)`.
#[derive(Debug, PartialEq)]
pub struct TypeTuple {
    pub elems: Vec<Type>,
}

/// A list type `[T]`.
#[derive(Debug, PartialEq)]
pub struct TypeList {
    pub elem: Box<Type>,
}

/// An elided type `_`, left for inference.
#[derive(Debug, PartialEq)]
pub struct TypeInfer {}

} // verus!
