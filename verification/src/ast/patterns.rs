use vstd::prelude::*;

verus! {

/// A pattern on the left-hand side of a block-local `let`
/// or in a helper function's parameter list.
#[derive(Debug, PartialEq)]
pub enum Pat {
    Wild(PatWild),
    Ident(PatIdent),
    Tuple(PatTuple),
}

/// The wildcard pattern `_`: binds nothing.
#[derive(Debug, PartialEq)]
pub struct PatWild {}

/// A plain identifier pattern: binds one name.
#[derive(Debug, PartialEq)]
pub struct PatIdent {
    pub ident: String,
}

/// A tuple pattern `(p, q, ...)`: binds the names of its components.
#[derive(Debug, PartialEq)]
pub struct PatTuple {
    pub elems: Vec<Pat>,
}

/// The set of names a pattern binds into the enclosing local scope.
pub open spec fn pat_bound(p: Pat) -> Set<Seq<char>>
    decreases p,
{
    match p {
        Pat::Wild(_) => Set::empty(),
        Pat::Ident(q) => Set::empty().insert(q.ident@),
        Pat::Tuple(q) => pats_bound(q.elems@),
    }
}

/// The names bound by a sequence of patterns.
pub open spec fn pats_bound(ps: Seq<Pat>) -> Set<Seq<char>>
    decreases ps,
{
    if ps.len() == 0 {
        Set::empty()
    } else {
        pats_bound(ps.drop_last()).union(pat_bound(ps.last()))
    }
}

} // verus!
