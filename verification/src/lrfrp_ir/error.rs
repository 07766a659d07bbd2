use vstd::prelude::*;

use super::types::LiftedCategory;

verus! {

/// The closed taxonomy of semantic errors.  Each variant carries the
/// offending identifier; an illegal read of a tick-dependent name also
/// carries its resolved category.
#[derive(Debug, PartialEq)]
pub enum Error {
    /// An identifier was read but never declared.
    UndefinedVariable(String),
    /// An identifier is declared more than once across inputs, outputs,
    /// arguments, equations and helper functions.
    MultipleDefinition(String),
    /// A declared output has no combinational equation.
    NotCalculated(String),
    /// A declared output resolves to a register, which is forbidden.
    CellAsOutput(String),
    /// A register initializer reads a tick-dependent name.
    LiftedTypeNotAllowed(String, LiftedCategory),
    /// A genuine cycle in the combinational or in the register-update graph.
    CyclicDependency(String),
    /// A section appears more than once in the program.
    DuplicatedItem(String),
    /// A required section is missing from the program.
    ItemNotFound(String),
}

/// The names carried by `UndefinedVariable` errors in a list.
pub open spec fn errs_undef_names(es: Seq<Error>) -> Set<Seq<char>> {
    Set::new(
        |n: Seq<char>|
            exists|i: int|
                0 <= i < es.len() && (#[trigger] es[i] matches Error::UndefinedVariable(s)
                    && s@ == n),
    )
}

/// The names carried by `LiftedTypeNotAllowed` errors in a list.
pub open spec fn errs_lifted_names(es: Seq<Error>) -> Set<Seq<char>> {
    Set::new(
        |n: Seq<char>|
            exists|i: int|
                0 <= i < es.len() && (#[trigger] es[i] matches Error::LiftedTypeNotAllowed(s, _)
                    && s@ == n),
    )
}

/// Every error in the list stems from dependency extraction.
pub open spec fn only_extraction_errs(es: Seq<Error>) -> bool {
    forall|i: int|
        0 <= i < es.len()
            ==> (#[trigger] es[i] matches Error::UndefinedVariable(_)
                || es[i] matches Error::LiftedTypeNotAllowed(_, _))
}

} // verus!
