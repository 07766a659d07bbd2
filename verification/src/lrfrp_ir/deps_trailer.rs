use vstd::prelude::*;

use crate::ast::expressions::{ArrowExpr, Expr, Stmt};
use crate::ast::patterns::{pat_bound, Pat};
use crate::ast::{FnArg, ItemFn};
use super::error::{
    errs_lifted_names, errs_undef_names, only_extraction_errs, Error,
};
use super::types::{spec_lifted_category, Type, VarEnv};

verus! {

// ---------------------------------------------------------------------
// The free-variable analysis, as mathematics.
//
// `free_reads(e, bound)` is the set of names an expression reads from the
// enclosing (global) scope: every identifier occurrence that is not
// shadowed by `bound`, the names bound locally around it.  Block-local
// `let`s extend `bound` for the statements after them; a callee name is
// itself a read.
// ---------------------------------------------------------------------

/// The names an expression reads from outside `bound`.
pub open spec fn free_reads(e: Expr, bound: Set<Seq<char>>) -> Set<Seq<char>>
    decreases e,
{
    match e {
        Expr::Unary(u) => free_reads(*u.expr, bound),
        Expr::Binary(b) => free_reads(*b.lhs, bound).union(free_reads(*b.rhs, bound)),
        Expr::Block(b) => block_reads(b.stmts@, bound),
        Expr::Call(c) => read_of(c.func.path@, bound).union(free_reads_list(c.args@, bound)),
        Expr::Field(f) => free_reads(*f.base, bound),
        Expr::If(i) => free_reads(*i.cond, bound).union(
            free_reads(*i.then_branch, bound).union(free_reads(*i.else_branch, bound)),
        ),
        Expr::Index(i) => free_reads(*i.expr, bound).union(free_reads(*i.index, bound)),
        Expr::Lit(_) => Set::empty(),
        Expr::Paren(p) => free_reads(*p.expr, bound),
        Expr::Tuple(t) => free_reads_list(t.elems@, bound),
        Expr::Path(p) => read_of(p.path@, bound),
        Expr::List(l) => free_reads_list(l.elems@, bound),
        Expr::Type(t) => free_reads(*t.expr, bound),
    }
}

/// The read contributed by one identifier occurrence.
pub open spec fn read_of(n: Seq<char>, bound: Set<Seq<char>>) -> Set<Seq<char>> {
    if bound.contains(n) {
        Set::empty()
    } else {
        Set::empty().insert(n)
    }
}

/// The names a list of expressions reads from outside `bound`.
pub open spec fn free_reads_list(es: Seq<Expr>, bound: Set<Seq<char>>) -> Set<Seq<char>>
    decreases es,
{
    if es.len() == 0 {
        Set::empty()
    } else {
        free_reads(es[0], bound).union(free_reads_list(es.drop_first(), bound))
    }
}

/// The names the statements of a block read, with each `let` shadowing
/// the statements after it.
pub open spec fn block_reads(stmts: Seq<Stmt>, bound: Set<Seq<char>>) -> Set<Seq<char>>
    decreases stmts,
{
    if stmts.len() == 0 {
        Set::empty()
    } else {
        match stmts[0] {
            Stmt::Local(l) => free_reads(*l.expr, bound).union(
                block_reads(stmts.drop_first(), bound.union(pat_bound(l.pat))),
            ),
            Stmt::Expr(e) => free_reads(e, bound).union(block_reads(stmts.drop_first(), bound)),
        }
    }
}

/// The names bound by a helper function's parameter list.
pub open spec fn fnargs_bound(args: Seq<FnArg>) -> Set<Seq<char>>
    decreases args,
{
    if args.len() == 0 {
        Set::empty()
    } else {
        fnargs_bound(args.drop_last()).union(pat_bound(args.last().pat))
    }
}

/// The names a helper function's body reads besides its parameters.
pub open spec fn fn_reads(f: ItemFn) -> Set<Seq<char>> {
    free_reads(*f.expr, fnargs_bound(f.inputs@))
}

// ---------------------------------------------------------------------
// Classification of a set of reads against the symbol table.
// ---------------------------------------------------------------------

/// The reads that are declared and, under `forbid`, not tick-dependent:
/// these become dependency edges.
pub open spec fn ok_of(
    reads: Set<Seq<char>>,
    g: Map<Seq<char>, Type>,
    forbid: bool,
) -> Set<Seq<char>> {
    Set::new(
        |n: Seq<char>|
            reads.contains(n) && g.dom().contains(n) && !(forbid && g[n] is Lifted),
    )
}

/// The reads of undeclared names.
pub open spec fn undef_of(reads: Set<Seq<char>>, g: Map<Seq<char>, Type>) -> Set<Seq<char>> {
    Set::new(|n: Seq<char>| reads.contains(n) && !g.dom().contains(n))
}

/// The reads of tick-dependent names.
pub open spec fn lifted_of(reads: Set<Seq<char>>, g: Map<Seq<char>, Type>) -> Set<Seq<char>> {
    Set::new(|n: Seq<char>| reads.contains(n) && g.dom().contains(n) && g[n] is Lifted)
}

/// No read is undeclared, and under `forbid` none is tick-dependent.
pub open spec fn reads_clean(
    reads: Set<Seq<char>>,
    g: Map<Seq<char>, Type>,
    forbid: bool,
) -> bool {
    undef_of(reads, g).is_empty() && (forbid ==> lifted_of(reads, g).is_empty())
}

/// The set of names a list of strings denotes.
pub open spec fn names_set(s: Seq<String>) -> Set<Seq<char>> {
    Set::new(|n: Seq<char>| exists|i: int| 0 <= i < s.len() && #[trigger] s[i]@ == n)
}

/// Every illegal-read error correctly records the category the symbol
/// table resolves its name to.
pub open spec fn lifted_errs_justified(es: Seq<Error>, g: Map<Seq<char>, Type>) -> bool {
    forall|i: int|
        0 <= i < es.len() ==> (#[trigger] es[i] matches Error::LiftedTypeNotAllowed(s, c) ==> {
            &&& g.dom().contains(s@)
            &&& g[s@] is Lifted
            &&& c == spec_lifted_category(g[s@]->Lifted_0)
        })
}

// ---------------------------------------------------------------------
// The extraction context: the scope stack, the dependencies recorded so
// far, and the errors found so far.
// ---------------------------------------------------------------------

/// The walking context of one extraction: the global symbol table, the
/// names bound by enclosing local scopes, the dependencies recorded so
/// far and the errors found so far.
pub struct TyCtx<'a, 'b> {
    pub global: &'b VarEnv<'a>,
    pub local: Vec<String>,
    pub deps: Vec<String>,
    pub errors: Vec<Error>,
    pub forbid_lifted: bool,
}

impl<'a, 'b> TyCtx<'a, 'b> {
    /// The symbol table as a map.
    pub open spec fn genv(self) -> Map<Seq<char>, Type<'a>> {
        self.global.as_map()
    }

    /// The names currently shadowed by local scopes.
    pub open spec fn bound(self) -> Set<Seq<char>> {
        names_set(self.local@)
    }

    /// The dependencies recorded so far, as a set of names.
    pub open spec fn deps_set(self) -> Set<Seq<char>> {
        names_set(self.deps@)
    }

    pub open spec fn wf(self) -> bool {
        self.global.wf()
    }

    /// A fresh context over a symbol table.
    pub fn new(global: &'b VarEnv<'a>, forbid_lifted: bool) -> (r: TyCtx<'a, 'b>)
        ensures
            r.global == global,
            r.forbid_lifted == forbid_lifted,
            r.local@ == Seq::<String>::empty(),
            r.deps@ == Seq::<String>::empty(),
            r.errors@ == Seq::<Error>::empty(),
    {
        TyCtx { global, local: Vec::new(), deps: Vec::new(), errors: Vec::new(), forbid_lifted }
    }
}

/// What one walk step leaves behind: the scopes are as before, the
/// dependency set grew by the legal reads, and the new errors record
/// exactly the undeclared reads and (under `forbid`) the tick-dependent
/// reads.
pub open spec fn trail_post(c0: TyCtx, c1: TyCtx, reads: Set<Seq<char>>) -> bool {
    let g = c0.genv();
    let fb = c0.forbid_lifted;
    let new_errs = c1.errors@.skip(c0.errors@.len() as int);
    &&& c1.global == c0.global
    &&& c1.forbid_lifted == fb
    &&& c1.local@ == c0.local@
    &&& c1.deps_set() == c0.deps_set().union(ok_of(reads, g, fb))
    &&& c1.errors@.len() >= c0.errors@.len()
    &&& c1.errors@.subrange(0, c0.errors@.len() as int) == c0.errors@
    &&& errs_undef_names(new_errs) == undef_of(reads, g)
    &&& errs_lifted_names(new_errs) == (if fb {
        lifted_of(reads, g)
    } else {
        Set::<Seq<char>>::empty()
    })
    &&& only_extraction_errs(new_errs)
    &&& lifted_errs_justified(new_errs, g)
}

/// A step that touched nothing reported the empty read set.
pub proof fn lemma_trail_post_refl(c: TyCtx)
    ensures
        trail_post(c, c, Set::empty()),
{
    let g = c.genv();
    assert(c.errors@.subrange(0, c.errors@.len() as int) =~= c.errors@);
    assert(c.errors@.skip(c.errors@.len() as int) =~= Seq::<Error>::empty());
    assert(c.deps_set().union(ok_of(Set::empty(), g, c.forbid_lifted)) =~= c.deps_set());
    assert(errs_undef_names(Seq::<Error>::empty()) =~= undef_of(Set::empty(), g));
    assert(errs_lifted_names(Seq::<Error>::empty()) =~= Set::<Seq<char>>::empty());
    assert(errs_lifted_names(Seq::<Error>::empty()) =~= lifted_of(Set::empty(), g));
}

/// Two successive steps behave as one step over the union of their reads.
pub proof fn lemma_trail_post_seq(
    c0: TyCtx,
    c1: TyCtx,
    c2: TyCtx,
    r1: Set<Seq<char>>,
    r2: Set<Seq<char>>,
)
    requires
        trail_post(c0, c1, r1),
        trail_post(c1, c2, r2),
    ensures
        trail_post(c0, c2, r1.union(r2)),
{
    let g = c0.genv();
    let fb = c0.forbid_lifted;
    let n0 = c0.errors@.len() as int;
    let n1 = c1.errors@.len() as int;
    let e01 = c1.errors@.skip(n0);
    let e12 = c2.errors@.skip(n1);
    let e02 = c2.errors@.skip(n0);
    assert(c2.errors@.subrange(0, n0) =~= c0.errors@);
    assert(e02 =~= e01 + e12);
    lemma_errs_sets_concat(e01, e12, g);
    assert(ok_of(r1.union(r2), g, fb) =~= ok_of(r1, g, fb).union(ok_of(r2, g, fb)));
    assert(c2.deps_set() =~= c0.deps_set().union(ok_of(r1.union(r2), g, fb)));
    assert(undef_of(r1.union(r2), g) =~= undef_of(r1, g).union(undef_of(r2, g)));
    assert(errs_undef_names(e02) =~= undef_of(r1.union(r2), g));
    if fb {
        assert(lifted_of(r1.union(r2), g) =~= lifted_of(r1, g).union(lifted_of(r2, g)));
        assert(errs_lifted_names(e02) =~= lifted_of(r1.union(r2), g));
    } else {
        assert(errs_lifted_names(e02) =~= Set::<Seq<char>>::empty());
    }
}

/// The error-name sets of a concatenation are the unions, and the
/// per-error facts hold of a concatenation exactly when they hold of
/// both halves.
pub proof fn lemma_errs_sets_concat(a: Seq<Error>, b: Seq<Error>, g: Map<Seq<char>, Type>)
    ensures
        errs_undef_names(a + b) == errs_undef_names(a).union(errs_undef_names(b)),
        errs_lifted_names(a + b) == errs_lifted_names(a).union(errs_lifted_names(b)),
        only_extraction_errs(a + b) <==> (only_extraction_errs(a) && only_extraction_errs(b)),
        lifted_errs_justified(a + b, g) <==> (lifted_errs_justified(a, g) && lifted_errs_justified(
            b,
            g,
        )),
{
    let ab = a + b;
    assert forall|n: Seq<char>| errs_undef_names(ab).contains(n) implies errs_undef_names(
        a,
    ).union(errs_undef_names(b)).contains(n) by {
        let i = choose|i: int|
            0 <= i < ab.len() && (#[trigger] ab[i] matches Error::UndefinedVariable(s) && s@ == n);
        if i < a.len() {
            assert(a[i] == ab[i]);
        } else {
            assert(b[i - a.len()] == ab[i]);
        }
    }
    assert forall|n: Seq<char>|
        errs_undef_names(a).union(errs_undef_names(b)).contains(n) implies errs_undef_names(
        ab,
    ).contains(n) by {
        if errs_undef_names(a).contains(n) {
            let i = choose|i: int|
                0 <= i < a.len() && (#[trigger] a[i] matches Error::UndefinedVariable(s) && s@
                    == n);
            assert(ab[i] == a[i]);
        } else {
            let i = choose|i: int|
                0 <= i < b.len() && (#[trigger] b[i] matches Error::UndefinedVariable(s) && s@
                    == n);
            assert(ab[a.len() + i] == b[i]);
        }
    }
    assert(errs_undef_names(ab) =~= errs_undef_names(a).union(errs_undef_names(b)));
    assert forall|n: Seq<char>| errs_lifted_names(ab).contains(n) implies errs_lifted_names(
        a,
    ).union(errs_lifted_names(b)).contains(n) by {
        let i = choose|i: int|
            0 <= i < ab.len() && (#[trigger] ab[i] matches Error::LiftedTypeNotAllowed(s, _)
                && s@ == n);
        if i < a.len() {
            assert(a[i] == ab[i]);
        } else {
            assert(b[i - a.len()] == ab[i]);
        }
    }
    assert forall|n: Seq<char>|
        errs_lifted_names(a).union(errs_lifted_names(b)).contains(n) implies errs_lifted_names(
        ab,
    ).contains(n) by {
        if errs_lifted_names(a).contains(n) {
            let i = choose|i: int|
                0 <= i < a.len() && (#[trigger] a[i] matches Error::LiftedTypeNotAllowed(s, _)
                    && s@ == n);
            assert(ab[i] == a[i]);
        } else {
            let i = choose|i: int|
                0 <= i < b.len() && (#[trigger] b[i] matches Error::LiftedTypeNotAllowed(s, _)
                    && s@ == n);
            assert(ab[a.len() + i] == b[i]);
        }
    }
    assert(errs_lifted_names(ab) =~= errs_lifted_names(a).union(errs_lifted_names(b)));
    assert forall|i: int| 0 <= i < a.len() implies ab[i] == a[i] by {}
    assert forall|i: int| 0 <= i < b.len() implies ab[a.len() + i] == b[i] by {}
    if only_extraction_errs(a) && only_extraction_errs(b) {
        assert forall|i: int| 0 <= i < ab.len() implies (#[trigger] ab[i] matches
            Error::UndefinedVariable(_)
            || ab[i] matches Error::LiftedTypeNotAllowed(_, _)) by {
            if i < a.len() {
                assert(ab[i] == a[i]);
            } else {
                assert(ab[i] == b[i - a.len()]);
            }
        }
    }
    if lifted_errs_justified(a, g) && lifted_errs_justified(b, g) {
        assert forall|i: int| 0 <= i < ab.len() implies (#[trigger] ab[i] matches
            Error::LiftedTypeNotAllowed(s, c) ==> {
            &&& g.dom().contains(s@)
            &&& g[s@] is Lifted
            &&& c == spec_lifted_category(g[s@]->Lifted_0)
        }) by {
            if i < a.len() {
                assert(ab[i] == a[i]);
            } else {
                assert(ab[i] == b[i - a.len()]);
            }
        }
    }
}

/// Appending one string extends the denoted name set by its view.
pub proof fn lemma_names_set_push(s: Seq<String>, x: String)
    ensures
        names_set(s.push(x)) == names_set(s).insert(x@),
{
    let sp = s.push(x);
    assert forall|n: Seq<char>| names_set(sp).contains(n) implies names_set(s).insert(
        x@,
    ).contains(n) by {
        let i = choose|i: int| 0 <= i < sp.len() && #[trigger] sp[i]@ == n;
        if i < s.len() {
            assert(s[i]@ == n);
        }
    }
    assert forall|n: Seq<char>| names_set(s).insert(x@).contains(n) implies names_set(
        sp,
    ).contains(n) by {
        if names_set(s).contains(n) {
            let i = choose|i: int| 0 <= i < s.len() && #[trigger] s[i]@ == n;
            assert(sp[i]@ == n);
        } else {
            assert(sp[s.len() as int]@ == n);
        }
    }
    assert(names_set(sp) =~= names_set(s).insert(x@));
}

/// The error-name sets of a one-error list.
pub proof fn lemma_errs_singleton(e: Error)
    ensures
        e matches Error::UndefinedVariable(s) ==> errs_undef_names(seq![e]) == Set::<
            Seq<char>,
        >::empty().insert(s@) && errs_lifted_names(seq![e]) == Set::<Seq<char>>::empty(),
        e matches Error::LiftedTypeNotAllowed(s, _) ==> errs_lifted_names(seq![e]) == Set::<
            Seq<char>,
        >::empty().insert(s@) && errs_undef_names(seq![e]) == Set::<Seq<char>>::empty(),
{
    let se = seq![e];
    assert(se.len() == 1 && se[0] == e);
    match e {
        Error::UndefinedVariable(s) => {
            assert(se[0] matches Error::UndefinedVariable(t) && t@ == s@);
            assert(errs_undef_names(se).contains(s@));
            assert forall|n: Seq<char>| errs_undef_names(se).contains(n) implies n == s@ by {
                let i = choose|i: int|
                    0 <= i < se.len() && (#[trigger] se[i] matches Error::UndefinedVariable(t)
                        && t@ == n);
                assert(i == 0);
            }
            assert forall|n: Seq<char>| !errs_lifted_names(se).contains(n) by {
                if errs_lifted_names(se).contains(n) {
                    let i = choose|i: int|
                        0 <= i < se.len() && (#[trigger] se[i] matches
                            Error::LiftedTypeNotAllowed(t, _) && t@ == n);
                    assert(i == 0);
                }
            }
            assert(errs_undef_names(se) =~= Set::<Seq<char>>::empty().insert(s@));
            assert(errs_lifted_names(se) =~= Set::<Seq<char>>::empty());
        },
        Error::LiftedTypeNotAllowed(s, _) => {
            assert(se[0] matches Error::LiftedTypeNotAllowed(t, _) && t@ == s@);
            assert(errs_lifted_names(se).contains(s@));
            assert forall|n: Seq<char>| errs_lifted_names(se).contains(n) implies n == s@ by {
                let i = choose|i: int|
                    0 <= i < se.len() && (#[trigger] se[i] matches Error::LiftedTypeNotAllowed(
                        t,
                        _,
                    ) && t@ == n);
                assert(i == 0);
            }
            assert forall|n: Seq<char>| !errs_undef_names(se).contains(n) by {
                if errs_undef_names(se).contains(n) {
                    let i = choose|i: int|
                        0 <= i < se.len() && (#[trigger] se[i] matches Error::UndefinedVariable(
                            t,
                        ) && t@ == n);
                    assert(i == 0);
                }
            }
            assert(errs_lifted_names(se) =~= Set::<Seq<char>>::empty().insert(s@));
            assert(errs_undef_names(se) =~= Set::<Seq<char>>::empty());
        },
        _ => {},
    }
}

/// Whether a list of strings holds a given name.
pub fn contains_name(v: &Vec<String>, x: &String) -> (r: bool)
    ensures
        r == names_set(v@).contains(x@),
{
    let n = v.len();
    let mut i: usize = 0;
    while i < n
        invariant
            n == v@.len(),
            i <= n,
            forall|j: int| 0 <= j < i ==> v@[j]@ != x@,
        decreases n - i,
    {
        if v[i].eq(x) {
            assert(v@[i as int]@ == x@);
            return true;
        }
        i = i + 1;
    }
    assert forall|j: int| 0 <= j < v@.len() implies v@[j]@ != x@ by {}
    false
}

/// Record one identifier occurrence: shadowed names are skipped, legal
/// reads become dependencies, undeclared or forbidden tick-dependent
/// reads become errors.
pub fn insert_variable(cx: &mut TyCtx, path: &String)
    requires
        old(cx).wf(),
    ensures
        trail_post(*old(cx), *final(cx), read_of(path@, old(cx).bound())),
{
    proof {
        lemma_trail_post_refl(*cx);
    }
    let in_local = contains_name(&cx.local, path);
    if in_local {
        proof {
            assert(read_of(path@, cx.bound()) =~= Set::<Seq<char>>::empty());
        }
        return;
    }
    let ghost c0 = *cx;
    let ghost reads = read_of(path@, cx.bound());
    let ghost g = cx.genv();
    let ghost fb = cx.forbid_lifted;
    proof {
        assert(reads =~= Set::empty().insert(path@));
    }
    match cx.global.get(path) {
        None => {
            cx.errors.push(Error::UndefinedVariable(path.clone()));
            proof {
                let e = Error::UndefinedVariable(*path);
                lemma_errs_singleton(e);
                assert(cx.errors@.subrange(0, c0.errors@.len() as int) =~= c0.errors@);
                assert(cx.errors@.skip(c0.errors@.len() as int) =~= seq![e]);
                assert(undef_of(reads, g) =~= Set::<Seq<char>>::empty().insert(path@));
                if fb {
                    assert(lifted_of(reads, g) =~= Set::<Seq<char>>::empty());
                }
                assert(ok_of(reads, g, fb) =~= Set::<Seq<char>>::empty());
                assert(cx.deps_set() =~= c0.deps_set().union(ok_of(reads, g, fb)));
            }
        },
        Some(t) => {
            let lifted_hit = match t {
                Type::Lifted(_) => cx.forbid_lifted,
                Type::Mono(_) => false,
            };
            if lifted_hit {
                let lt = match t {
                    Type::Lifted(lt) => lt,
                    Type::Mono(_) => {
                        proof {
                            assert(false);
                        }
                        unreached()
                    },
                };
                let cat = lt.category();
                cx.errors.push(Error::LiftedTypeNotAllowed(path.clone(), cat));
                proof {
                    let e = Error::LiftedTypeNotAllowed(*path, cat);
                    lemma_errs_singleton(e);
                    assert(cx.errors@.subrange(0, c0.errors@.len() as int) =~= c0.errors@);
                    assert(cx.errors@.skip(c0.errors@.len() as int) =~= seq![e]);
                    assert(lifted_of(reads, g) =~= Set::<Seq<char>>::empty().insert(path@));
                    assert(undef_of(reads, g) =~= Set::<Seq<char>>::empty());
                    assert(ok_of(reads, g, fb) =~= Set::<Seq<char>>::empty());
                    assert(cx.deps_set() =~= c0.deps_set().union(ok_of(reads, g, fb)));
                }
            } else {
                cx.deps.push(path.clone());
                proof {
                    lemma_names_set_push(c0.deps@, *path);
                    assert(ok_of(reads, g, fb) =~= Set::<Seq<char>>::empty().insert(path@));
                    assert(cx.deps_set() =~= c0.deps_set().union(ok_of(reads, g, fb)));
                    assert(cx.errors@.subrange(0, c0.errors@.len() as int) =~= c0.errors@);
                    assert(cx.errors@.skip(c0.errors@.len() as int) =~= Seq::<Error>::empty());
                    assert(errs_undef_names(Seq::<Error>::empty()) =~= undef_of(reads, g));
                    if fb {
                        assert(errs_lifted_names(Seq::<Error>::empty()) =~= lifted_of(reads, g));
                    } else {
                        assert(errs_lifted_names(Seq::<Error>::empty()) =~= Set::<
                            Seq<char>,
                        >::empty());
                    }
                }
            }
        },
    }
}

/// A walk in progress: `total` is the read set owed in the end, `rest`
/// the reads still to be visited.  The scope stack is not constrained,
/// so one statement of a block may extend it for the statements after it.
pub open spec fn trail_partial(
    c0: TyCtx,
    c1: TyCtx,
    total: Set<Seq<char>>,
    rest: Set<Seq<char>>,
) -> bool {
    let g = c0.genv();
    let fb = c0.forbid_lifted;
    let new_errs = c1.errors@.skip(c0.errors@.len() as int);
    &&& c1.global == c0.global
    &&& c1.forbid_lifted == fb
    &&& c1.deps_set().union(ok_of(rest, g, fb)) == c0.deps_set().union(ok_of(total, g, fb))
    &&& c1.errors@.len() >= c0.errors@.len()
    &&& c1.errors@.subrange(0, c0.errors@.len() as int) == c0.errors@
    &&& errs_undef_names(new_errs).union(undef_of(rest, g)) == undef_of(total, g)
    &&& (fb ==> errs_lifted_names(new_errs).union(lifted_of(rest, g)) == lifted_of(total, g))
    &&& (!fb ==> errs_lifted_names(new_errs) == Set::<Seq<char>>::empty())
    &&& only_extraction_errs(new_errs)
    &&& lifted_errs_justified(new_errs, g)
}

/// A walk that has not started yet still owes everything.
pub proof fn lemma_trail_partial_init(c0: TyCtx, total: Set<Seq<char>>)
    ensures
        trail_partial(c0, c0, total, total),
{
    let g = c0.genv();
    assert(c0.errors@.subrange(0, c0.errors@.len() as int) =~= c0.errors@);
    assert(c0.errors@.skip(c0.errors@.len() as int) =~= Seq::<Error>::empty());
    assert(errs_undef_names(Seq::<Error>::empty()).union(undef_of(total, g)) =~= undef_of(
        total,
        g,
    ));
    assert(errs_lifted_names(Seq::<Error>::empty()).union(lifted_of(total, g)) =~= lifted_of(
        total,
        g,
    ));
    assert(errs_lifted_names(Seq::<Error>::empty()) =~= Set::<Seq<char>>::empty());
}

/// One more step of a walk: the completed piece moves from `rest` into
/// the record.
pub proof fn lemma_trail_partial_step(
    c0: TyCtx,
    c1: TyCtx,
    c2: TyCtx,
    total: Set<Seq<char>>,
    rest1: Set<Seq<char>>,
    r: Set<Seq<char>>,
    rest2: Set<Seq<char>>,
)
    requires
        trail_partial(c0, c1, total, rest1),
        trail_post(c1, c2, r),
        rest1 == r.union(rest2),
    ensures
        trail_partial(c0, c2, total, rest2),
{
    let g = c0.genv();
    let fb = c0.forbid_lifted;
    let n0 = c0.errors@.len() as int;
    let n1 = c1.errors@.len() as int;
    let e01 = c1.errors@.skip(n0);
    let e12 = c2.errors@.skip(n1);
    let e02 = c2.errors@.skip(n0);
    assert(c2.errors@.subrange(0, n0) =~= c0.errors@);
    assert(e02 =~= e01 + e12);
    lemma_errs_sets_concat(e01, e12, g);
    assert(ok_of(rest1, g, fb) =~= ok_of(r, g, fb).union(ok_of(rest2, g, fb)));
    assert(c2.deps_set().union(ok_of(rest2, g, fb)) =~= c0.deps_set().union(
        ok_of(total, g, fb),
    ));
    assert(undef_of(rest1, g) =~= undef_of(r, g).union(undef_of(rest2, g)));
    assert(errs_undef_names(e02).union(undef_of(rest2, g)) =~= undef_of(total, g));
    if fb {
        assert(lifted_of(rest1, g) =~= lifted_of(r, g).union(lifted_of(rest2, g)));
        assert(errs_lifted_names(e02).union(lifted_of(rest2, g)) =~= lifted_of(total, g));
    } else {
        assert(errs_lifted_names(e02) =~= Set::<Seq<char>>::empty());
    }
}

/// A finished walk whose scopes are restored is one step over its whole
/// read set.
pub proof fn lemma_trail_partial_done(c0: TyCtx, c1: TyCtx, total: Set<Seq<char>>)
    requires
        trail_partial(c0, c1, total, Set::empty()),
        c1.local@ == c0.local@,
    ensures
        trail_post(c0, c1, total),
{
    let g = c0.genv();
    let fb = c0.forbid_lifted;
    let new_errs = c1.errors@.skip(c0.errors@.len() as int);
    assert(ok_of(Set::empty(), g, fb) =~= Set::<Seq<char>>::empty());
    assert(c1.deps_set().union(Set::empty()) =~= c1.deps_set());
    assert(c0.deps_set().union(ok_of(total, g, fb)) =~= c1.deps_set());
    assert(undef_of(Set::empty(), g) =~= Set::<Seq<char>>::empty());
    assert(errs_undef_names(new_errs).union(Set::empty()) =~= errs_undef_names(new_errs));
    if fb {
        assert(lifted_of(Set::empty(), g) =~= Set::<Seq<char>>::empty());
        assert(errs_lifted_names(new_errs).union(Set::empty()) =~= errs_lifted_names(new_errs));
    }
}

/// Push the names a pattern binds onto the scope stack.
pub fn insert_local(cx: &mut TyCtx, pat: &Pat)
    ensures
        final(cx).global == old(cx).global,
        final(cx).forbid_lifted == old(cx).forbid_lifted,
        final(cx).deps@ == old(cx).deps@,
        final(cx).errors@ == old(cx).errors@,
        old(cx).local@.is_prefix_of(final(cx).local@),
        final(cx).bound() == old(cx).bound().union(pat_bound(*pat)),
    decreases pat,
{
    let ghost c0 = *cx;
    match pat {
        Pat::Wild(_) => {
            proof {
                assert(cx.bound() =~= c0.bound().union(pat_bound(*pat)));
            }
        },
        Pat::Ident(p) => {
            cx.local.push(p.ident.clone());
            proof {
                lemma_names_set_push(c0.local@, p.ident);
                assert(cx.bound() =~= c0.bound().union(pat_bound(*pat)));
            }
        },
        Pat::Tuple(p) => {
            let n = p.elems.len();
            let mut i: usize = 0;
            while i < n
                invariant
                    *pat == Pat::Tuple(*p),
                    cx.global == c0.global,
                    cx.forbid_lifted == c0.forbid_lifted,
                    cx.deps@ == c0.deps@,
                    cx.errors@ == c0.errors@,
                    c0.local@.is_prefix_of(cx.local@),
                    n == p.elems@.len(),
                    i <= n,
                    cx.bound() == c0.bound().union(
                        crate::ast::patterns::pats_bound(p.elems@.subrange(0, i as int)),
                    ),
                decreases n - i,
            {
                proof {
                    assert(*pat == Pat::Tuple(*p));
                    assert(decreases_to!(*pat => pat->Tuple_0.elems@[i as int]));
                    assert(pat->Tuple_0.elems@[i as int] == p.elems@[i as int]);
                }
                insert_local(cx, &p.elems[i]);
                proof {
                    assert(p.elems@.subrange(0, (i + 1) as int).drop_last() =~= p.elems@.subrange(
                        0,
                        i as int,
                    ));
                    assert(p.elems@.subrange(0, (i + 1) as int).last() == p.elems@[i as int]);
                    assert(cx.bound() =~= c0.bound().union(
                        crate::ast::patterns::pats_bound(p.elems@.subrange(0, (i + 1) as int)),
                    ));
                }
                i = i + 1;
            }
            proof {
                assert(p.elems@.subrange(0, n as int) =~= p.elems@);
                assert(cx.bound() =~= c0.bound().union(pat_bound(*pat)));
            }
        },
    }
}

/// Walk an expression, recording every legal read as a dependency and
/// every undeclared or forbidden read as an error.
pub fn trail_expr(cx: &mut TyCtx, e: &Expr)
    requires
        old(cx).wf(),
    ensures
        trail_post(*old(cx), *final(cx), free_reads(*e, old(cx).bound())),
    decreases e,
{
    let ghost c0 = *cx;
    let ghost bound0 = c0.bound();
    let ghost g = c0.genv();
    let ghost fb = c0.forbid_lifted;
    match e {
        Expr::Lit(_) => {
            proof {
                lemma_trail_post_refl(*cx);
                assert(free_reads(*e, bound0) =~= Set::<Seq<char>>::empty());
            }
        },
        Expr::Path(p) => {
            insert_variable(cx, &p.path);
        },
        Expr::Unary(u) => {
            proof {
                assert(decreases_to!(*e => e->Unary_0.expr));
            }
            trail_expr(cx, &u.expr);
        },
        Expr::Paren(p) => {
            proof {
                assert(decreases_to!(*e => e->Paren_0.expr));
            }
            trail_expr(cx, &p.expr);
        },
        Expr::Field(f) => {
            proof {
                assert(decreases_to!(*e => e->Field_0.base));
            }
            trail_expr(cx, &f.base);
        },
        Expr::Type(t) => {
            proof {
                assert(decreases_to!(*e => e->Type_0.expr));
            }
            trail_expr(cx, &t.expr);
        },
        Expr::Binary(b) => {
            proof {
                assert(decreases_to!(*e => e->Binary_0.lhs));
                assert(decreases_to!(*e => e->Binary_0.rhs));
            }
            trail_expr(cx, &b.lhs);
            let ghost c1 = *cx;
            trail_expr(cx, &b.rhs);
            proof {
                lemma_trail_post_seq(
                    c0,
                    c1,
                    *cx,
                    free_reads(*b.lhs, bound0),
                    free_reads(*b.rhs, bound0),
                );
            }
        },
        Expr::Index(ix) => {
            proof {
                assert(decreases_to!(*e => e->Index_0.expr));
                assert(decreases_to!(*e => e->Index_0.index));
            }
            trail_expr(cx, &ix.expr);
            let ghost c1 = *cx;
            trail_expr(cx, &ix.index);
            proof {
                lemma_trail_post_seq(
                    c0,
                    c1,
                    *cx,
                    free_reads(*ix.expr, bound0),
                    free_reads(*ix.index, bound0),
                );
            }
        },
        Expr::If(i) => {
            proof {
                assert(decreases_to!(*e => e->If_0.cond));
                assert(decreases_to!(*e => e->If_0.then_branch));
                assert(decreases_to!(*e => e->If_0.else_branch));
            }
            trail_expr(cx, &i.cond);
            let ghost c1 = *cx;
            trail_expr(cx, &i.then_branch);
            let ghost c2 = *cx;
            trail_expr(cx, &i.else_branch);
            proof {
                lemma_trail_post_seq(
                    c0,
                    c1,
                    c2,
                    free_reads(*i.cond, bound0),
                    free_reads(*i.then_branch, bound0),
                );
                lemma_trail_post_seq(
                    c0,
                    c2,
                    *cx,
                    free_reads(*i.cond, bound0).union(free_reads(*i.then_branch, bound0)),
                    free_reads(*i.else_branch, bound0),
                );
                assert(free_reads(*e, bound0) =~= free_reads(*i.cond, bound0).union(
                    free_reads(*i.then_branch, bound0),
                ).union(free_reads(*i.else_branch, bound0)));
            }
        },
        Expr::Tuple(t) => {
            trail_exprs_tuple(cx, e, &t.elems);
        },
        Expr::List(l) => {
            trail_exprs_list(cx, e, &l.elems);
        },
        Expr::Call(c) => {
            insert_variable(cx, &c.func.path);
            let ghost c1 = *cx;
            let ghost total = free_reads_list(c.args@, bound0);
            proof {
                lemma_trail_partial_init(c1, total);
                assert(c.args@.skip(0) =~= c.args@);
            }
            let n = c.args.len();
            let mut i: usize = 0;
            while i < n
                invariant
                    *e == Expr::Call(*c),
                    n == c.args@.len(),
                    i <= n,
                    c1.global.wf(),
                    c1.bound() == bound0,
                    cx.local@ == c1.local@,
                    trail_partial(
                        c1,
                        *cx,
                        free_reads_list(c.args@, bound0),
                        free_reads_list(c.args@.skip(i as int), bound0),
                    ),
                decreases n - i,
            {
                proof {
                    assert(decreases_to!(*e => e->Call_0.args@[i as int]));
                }
                let ghost cb = *cx;
                trail_expr(cx, &c.args[i]);
                proof {
                    assert(c.args@.skip(i as int)[0] == c.args@[i as int]);
                    assert(c.args@.skip(i as int).drop_first() =~= c.args@.skip((i + 1) as int));
                    lemma_trail_partial_step(
                        c1,
                        cb,
                        *cx,
                        free_reads_list(c.args@, bound0),
                        free_reads_list(c.args@.skip(i as int), bound0),
                        free_reads(c.args@[i as int], bound0),
                        free_reads_list(c.args@.skip((i + 1) as int), bound0),
                    );
                }
                i = i + 1;
            }
            proof {
                assert(c.args@.skip(n as int) =~= Seq::<Expr>::empty());
                assert(free_reads_list(c.args@.skip(n as int), bound0) =~= Set::<
                    Seq<char>,
                >::empty());
                lemma_trail_partial_done(c1, *cx, total);
                lemma_trail_post_seq(c0, c1, *cx, read_of(c.func.path@, bound0), total);
            }
        },
        Expr::Block(b) => {
            let n0 = cx.local.len();
            let ghost total = block_reads(b.stmts@, bound0);
            proof {
                lemma_trail_partial_init(c0, total);
                assert(b.stmts@.skip(0) =~= b.stmts@);
            }
            let n = b.stmts.len();
            let mut i: usize = 0;
            while i < n
                invariant
                    *e == Expr::Block(*b),
                    n == b.stmts@.len(),
                    i <= n,
                    n0 == c0.local@.len(),
                    c0.global.wf(),
                    cx.global == c0.global,
                    c0.local@.is_prefix_of(cx.local@),
                    trail_partial(
                        c0,
                        *cx,
                        block_reads(b.stmts@, bound0),
                        block_reads(b.stmts@.skip(i as int), cx.bound()),
                    ),
                decreases n - i,
            {
                let ghost cb = *cx;
                proof {
                    assert(b.stmts@.skip(i as int)[0] == b.stmts@[i as int]);
                    assert(b.stmts@.skip(i as int).drop_first() =~= b.stmts@.skip(
                        (i + 1) as int,
                    ));
                }
                match &b.stmts[i] {
                    Stmt::Local(l) => {
                        proof {
                            assert(decreases_to!(
                                *e => e->Block_0.stmts@[i as int]->Local_0.expr));
                        }
                        trail_expr(cx, &l.expr);
                        let ghost cm = *cx;
                        insert_local(cx, &l.pat);
                        proof {
                            assert(b.stmts@[i as int] == Stmt::Local(*l));
                            assert(block_reads(b.stmts@.skip(i as int), cb.bound())
                                =~= free_reads(*l.expr, cb.bound()).union(
                                block_reads(
                                    b.stmts@.skip((i + 1) as int),
                                    cb.bound().union(pat_bound(l.pat)),
                                ),
                            ));
                            lemma_trail_partial_step(
                                c0,
                                cb,
                                cm,
                                block_reads(b.stmts@, bound0),
                                block_reads(b.stmts@.skip(i as int), cb.bound()),
                                free_reads(*l.expr, cb.bound()),
                                block_reads(
                                    b.stmts@.skip((i + 1) as int),
                                    cb.bound().union(pat_bound(l.pat)),
                                ),
                            );
                        }
                    },
                    Stmt::Expr(e2) => {
                        proof {
                            assert(decreases_to!(
                                *e => e->Block_0.stmts@[i as int]->Expr_0));
                        }
                        trail_expr(cx, e2);
                        proof {
                            assert(b.stmts@[i as int] == Stmt::Expr(*e2));
                            assert(block_reads(b.stmts@.skip(i as int), cb.bound())
                                =~= free_reads(*e2, cb.bound()).union(
                                block_reads(b.stmts@.skip((i + 1) as int), cb.bound()),
                            ));
                            lemma_trail_partial_step(
                                c0,
                                cb,
                                *cx,
                                block_reads(b.stmts@, bound0),
                                block_reads(b.stmts@.skip(i as int), cb.bound()),
                                free_reads(*e2, cb.bound()),
                                block_reads(b.stmts@.skip((i + 1) as int), cb.bound()),
                            );
                        }
                    },
                }
                i = i + 1;
            }
            let ghost cpre = *cx;
            cx.local.truncate(n0);
            proof {
                assert(b.stmts@.skip(n as int) =~= Seq::<Stmt>::empty());
                assert(block_reads(b.stmts@.skip(n as int), cpre.bound()) =~= Set::<
                    Seq<char>,
                >::empty());
                assert(cx.local@ =~= c0.local@);
                assert(trail_partial(c0, *cx, total, Set::empty()));
                lemma_trail_partial_done(c0, *cx, total);
            }
        },
    }
}

/// Walk the elements of a tuple expression.
fn trail_exprs_tuple(cx: &mut TyCtx, e: &Expr, elems: &Vec<Expr>)
    requires
        old(cx).wf(),
        *e matches Expr::Tuple(t) && t.elems == *elems,
    ensures
        trail_post(*old(cx), *final(cx), free_reads_list(elems@, old(cx).bound())),
    decreases e, 0nat,
{
    let ghost c0 = *cx;
    let ghost bound0 = c0.bound();
    let ghost total = free_reads_list(elems@, bound0);
    proof {
        lemma_trail_partial_init(c0, total);
        assert(elems@.skip(0) =~= elems@);
    }
    let n = elems.len();
    let mut i: usize = 0;
    while i < n
        invariant
            *e matches Expr::Tuple(t) && t.elems == *elems,
            n == elems@.len(),
            i <= n,
            c0.global.wf(),
            c0.bound() == bound0,
            cx.local@ == c0.local@,
            trail_partial(
                c0,
                *cx,
                free_reads_list(elems@, bound0),
                free_reads_list(elems@.skip(i as int), bound0),
            ),
        decreases n - i,
    {
        proof {
            assert(decreases_to!(*e => e->Tuple_0.elems@[i as int]));
        }
        let ghost cb = *cx;
        trail_expr(cx, &elems[i]);
        proof {
            assert(elems@.skip(i as int)[0] == elems@[i as int]);
            assert(elems@.skip(i as int).drop_first() =~= elems@.skip((i + 1) as int));
            lemma_trail_partial_step(
                c0,
                cb,
                *cx,
                free_reads_list(elems@, bound0),
                free_reads_list(elems@.skip(i as int), bound0),
                free_reads(elems@[i as int], bound0),
                free_reads_list(elems@.skip((i + 1) as int), bound0),
            );
        }
        i = i + 1;
    }
    proof {
        assert(elems@.skip(n as int) =~= Seq::<Expr>::empty());
        assert(free_reads_list(elems@.skip(n as int), bound0) =~= Set::<Seq<char>>::empty());
        lemma_trail_partial_done(c0, *cx, total);
    }
}

/// Walk the elements of a list literal.
fn trail_exprs_list(cx: &mut TyCtx, e: &Expr, elems: &Vec<Expr>)
    requires
        old(cx).wf(),
        *e matches Expr::List(t) && t.elems == *elems,
    ensures
        trail_post(*old(cx), *final(cx), free_reads_list(elems@, old(cx).bound())),
    decreases e, 0nat,
{
    let ghost c0 = *cx;
    let ghost bound0 = c0.bound();
    let ghost total = free_reads_list(elems@, bound0);
    proof {
        lemma_trail_partial_init(c0, total);
        assert(elems@.skip(0) =~= elems@);
    }
    let n = elems.len();
    let mut i: usize = 0;
    while i < n
        invariant
            *e matches Expr::List(t) && t.elems == *elems,
            n == elems@.len(),
            i <= n,
            c0.global.wf(),
            c0.bound() == bound0,
            cx.local@ == c0.local@,
            trail_partial(
                c0,
                *cx,
                free_reads_list(elems@, bound0),
                free_reads_list(elems@.skip(i as int), bound0),
            ),
        decreases n - i,
    {
        proof {
            assert(decreases_to!(*e => e->List_0.elems@[i as int]));
        }
        let ghost cb = *cx;
        trail_expr(cx, &elems[i]);
        proof {
            assert(elems@.skip(i as int)[0] == elems@[i as int]);
            assert(elems@.skip(i as int).drop_first() =~= elems@.skip((i + 1) as int));
            lemma_trail_partial_step(
                c0,
                cb,
                *cx,
                free_reads_list(elems@, bound0),
                free_reads_list(elems@.skip(i as int), bound0),
                free_reads(elems@[i as int], bound0),
                free_reads_list(elems@.skip((i + 1) as int), bound0),
            );
        }
        i = i + 1;
    }
    proof {
        assert(elems@.skip(n as int) =~= Seq::<Expr>::empty());
        assert(free_reads_list(elems@.skip(n as int), bound0) =~= Set::<Seq<char>>::empty());
        lemma_trail_partial_done(c0, *cx, total);
    }
}

/// What one extraction returns: on success the exact set of legal reads,
/// on failure a non-empty list recording exactly the undeclared reads
/// and, when tick-dependent names were forbidden, the tick-dependent
/// reads.
pub open spec fn extract_post(
    g: Map<Seq<char>, Type>,
    reads: Set<Seq<char>>,
    forbid: bool,
    r: Result<Vec<String>, Vec<Error>>,
) -> bool {
    match r {
        Ok(d) => reads_clean(reads, g, forbid) && names_set(d@) == reads,
        Err(es) => {
            &&& !reads_clean(reads, g, forbid)
            &&& es@.len() > 0
            &&& errs_undef_names(es@) == undef_of(reads, g)
            &&& errs_lifted_names(es@) == (if forbid {
                lifted_of(reads, g)
            } else {
                Set::<Seq<char>>::empty()
            })
            &&& only_extraction_errs(es@)
            &&& lifted_errs_justified(es@, g)
        },
    }
}

/// Turn a finished walking context into the extraction result.
fn finish_extract(cx: TyCtx, Ghost(reads): Ghost<Set<Seq<char>>>) -> (r: Result<
    Vec<String>,
    Vec<Error>,
>)
    requires
        cx.deps_set() == ok_of(reads, cx.genv(), cx.forbid_lifted),
        errs_undef_names(cx.errors@) == undef_of(reads, cx.genv()),
        errs_lifted_names(cx.errors@) == (if cx.forbid_lifted {
            lifted_of(reads, cx.genv())
        } else {
            Set::<Seq<char>>::empty()
        }),
        only_extraction_errs(cx.errors@),
        lifted_errs_justified(cx.errors@, cx.genv()),
    ensures
        extract_post(cx.genv(), reads, cx.forbid_lifted, r),
{
    let ghost g = cx.genv();
    let ghost fb = cx.forbid_lifted;
    let TyCtx { deps, errors, .. } = cx;
    if errors.is_empty() {
        proof {
            assert(errors@ =~= Seq::<Error>::empty());
            assert(undef_of(reads, g) =~= Set::<Seq<char>>::empty());
            if fb {
                assert(lifted_of(reads, g) =~= Set::<Seq<char>>::empty());
            }
            assert forall|n: Seq<char>| reads.contains(n) implies ok_of(reads, g, fb).contains(
                n,
            ) by {
                assert(!undef_of(reads, g).contains(n));
                if fb {
                    assert(!lifted_of(reads, g).contains(n));
                }
            }
            assert(ok_of(reads, g, fb) =~= reads);
        }
        Ok(deps)
    } else {
        proof {
            match errors@[0] {
                Error::UndefinedVariable(s) => {
                    assert(errs_undef_names(errors@).contains(s@));
                    assert(undef_of(reads, g).contains(s@));
                    assert(!undef_of(reads, g).is_empty());
                },
                Error::LiftedTypeNotAllowed(s, _) => {
                    assert(errs_lifted_names(errors@).contains(s@));
                    if !fb {
                        assert(false);
                    }
                    assert(lifted_of(reads, g).contains(s@));
                    assert(!lifted_of(reads, g).is_empty());
                },
                _ => {
                    assert(false);
                },
            }
        }
        Err(errors)
    }
}

/// The dependency extractor over one symbol table.
pub struct DepExtractor<'a, 'b> {
    pub global: &'b VarEnv<'a>,
}

impl<'a, 'b> DepExtractor<'a, 'b> {
    /// An extractor over a symbol table.
    pub fn new(global: &'b VarEnv<'a>) -> (r: DepExtractor<'a, 'b>)
        ensures
            r.global == global,
    {
        DepExtractor { global }
    }

    /// Extract the global reads of one expression; with `forbid_lifted`,
    /// reject reads of tick-dependent names.
    pub fn extract(&self, e: &Expr, forbid_lifted: bool) -> (r: Result<Vec<String>, Vec<Error>>)
        requires
            self.global.wf(),
        ensures
            extract_post(
                self.global.as_map(),
                free_reads(*e, Set::empty()),
                forbid_lifted,
                r,
            ),
    {
        let mut cx = TyCtx::new(self.global, forbid_lifted);
        let ghost c0 = cx;
        proof {
            assert(c0.bound() =~= Set::<Seq<char>>::empty());
            assert(c0.deps_set() =~= Set::<Seq<char>>::empty());
        }
        trail_expr(&mut cx, e);
        proof {
            let reads = free_reads(*e, Set::empty());
            assert(cx.errors@.skip(0) =~= cx.errors@);
            assert(cx.deps_set() =~= ok_of(reads, cx.genv(), forbid_lifted));
        }
        finish_extract(cx, Ghost(free_reads(*e, Set::empty())))
    }

    /// Extract the global reads of a register initializer.
    pub fn extract_arrow(&self, a: &ArrowExpr, forbid_lifted: bool) -> (r: Result<
        Vec<String>,
        Vec<Error>,
    >)
        requires
            self.global.wf(),
        ensures
            extract_post(
                self.global.as_map(),
                free_reads(*a.expr, Set::empty()),
                forbid_lifted,
                r,
            ),
    {
        self.extract(&a.expr, forbid_lifted)
    }

    /// Extract the global reads of a helper function's body, its
    /// parameters shadowing globals.
    pub fn extract_fn(&self, f: &ItemFn, forbid_lifted: bool) -> (r: Result<
        Vec<String>,
        Vec<Error>,
    >)
        requires
            self.global.wf(),
        ensures
            extract_post(self.global.as_map(), fn_reads(*f), forbid_lifted, r),
    {
        let mut cx = TyCtx::new(self.global, forbid_lifted);
        let ghost c0 = cx;
        let n = f.inputs.len();
        let mut i: usize = 0;
        while i < n
            invariant
                n == f.inputs@.len(),
                i <= n,
                c0.global.wf(),
                cx.global == c0.global,
                cx.forbid_lifted == forbid_lifted,
                cx.deps@ == c0.deps@,
                cx.errors@ == c0.errors@,
                cx.bound() == fnargs_bound(f.inputs@.subrange(0, i as int)).union(c0.bound()),
            decreases n - i,
        {
            insert_local(&mut cx, &f.inputs[i].pat);
            proof {
                assert(f.inputs@.subrange(0, (i + 1) as int).drop_last() =~= f.inputs@.subrange(
                    0,
                    i as int,
                ));
                assert(f.inputs@.subrange(0, (i + 1) as int).last() == f.inputs@[i as int]);
                assert(cx.bound() =~= fnargs_bound(f.inputs@.subrange(0, (i + 1) as int)).union(
                    c0.bound(),
                ));
            }
            i = i + 1;
        }
        proof {
            assert(f.inputs@.subrange(0, n as int) =~= f.inputs@);
            assert(c0.bound() =~= Set::<Seq<char>>::empty());
            assert(cx.bound() =~= fnargs_bound(f.inputs@));
            assert(c0.deps_set() =~= Set::<Seq<char>>::empty());
        }
        let ghost c1 = cx;
        trail_expr(&mut cx, &f.expr);
        proof {
            let reads = fn_reads(*f);
            assert(cx.errors@.skip(0) =~= cx.errors@);
            assert(cx.deps_set() =~= ok_of(reads, cx.genv(), forbid_lifted));
        }
        finish_extract(cx, Ghost(fn_reads(*f)))
    }
}

} // verus!
