use vstd::prelude::*;

use crate::ast::{
    Field, FrpStmtArrow, FrpStmtDependency, ItemArgs, ItemDeclaration, ItemFrpStmt, ItemIn,
    ItemOut,
};
use crate::ast::expressions::Expr;
use super::deps_trailer::{free_reads, fn_reads, names_set, DepExtractor};
use super::error::{only_extraction_errs, Error};
use super::tsort::{edge, tsort, wf_graph};
use super::types::{MaybeType, Type, TypeLifted, TypeMono, TypeSignal, VarEnv};

verus! {

// ---------------------------------------------------------------------
// Names declared by the sections of a program.
// ---------------------------------------------------------------------

/// The name an equation defines.
pub open spec fn stmt_name(s: ItemFrpStmt) -> Seq<char> {
    match s {
        ItemFrpStmt::Dependency(d) => d.path@,
        ItemFrpStmt::Arrow(a) => a.path@,
    }
}

/// The name a declaration defines.
pub open spec fn decl_name(d: ItemDeclaration) -> Seq<char> {
    match d {
        ItemDeclaration::Struct(s) => s.ident@,
        ItemDeclaration::Enum(e) => e.ident@,
        ItemDeclaration::Fn(f) => f.ident@,
    }
}

/// The names of a field list, in order.
pub open spec fn fields_names(fs: Seq<Field>) -> Seq<Seq<char>> {
    fs.map_values(|f: Field| f.ident@)
}

/// The names of the optional `Args` section.
pub open spec fn args_names(args: Option<ItemArgs>) -> Seq<Seq<char>> {
    match args {
        Some(a) => fields_names(a.fields@),
        None => Seq::empty(),
    }
}

/// The names the equations define, in order.
pub open spec fn stmts_names(ss: Seq<ItemFrpStmt>) -> Seq<Seq<char>> {
    ss.map_values(|s: ItemFrpStmt| stmt_name(s))
}

/// The names the declarations define, in order.
pub open spec fn decls_names(ds: Seq<ItemDeclaration>) -> Seq<Seq<char>> {
    ds.map_values(|d: ItemDeclaration| decl_name(d))
}

/// Every name in the list is declared at most once.
pub open spec fn distinct_names(s: Seq<Seq<char>>) -> bool {
    forall|i: int, j: int| 0 <= i < j < s.len() ==> s[i] != s[j]
}

/// The name occurs at two distinct positions of the list.
pub open spec fn dup_name(s: Seq<Seq<char>>, n: Seq<char>) -> bool {
    exists|i: int, j: int| 0 <= i < j < s.len() && #[trigger] s[i] == n && #[trigger] s[j] == n
}

/// All declared names, in the order they are entered into the symbol
/// table: arguments, inputs, equations, helper functions.
pub open spec fn decl_seq(
    input: ItemIn,
    args: Option<ItemArgs>,
    ds: Seq<ItemDeclaration>,
    ss: Seq<ItemFrpStmt>,
) -> Seq<Seq<char>> {
    args_names(args) + fields_names(input.fields@) + stmts_names(ss) + decls_names(ds)
}

/// `n` is the left-hand side of a combinational equation.
pub open spec fn is_comb_name(ss: Seq<ItemFrpStmt>, n: Seq<char>) -> bool {
    exists|i: int|
        0 <= i < ss.len() && (#[trigger] ss[i] matches ItemFrpStmt::Dependency(d) && d.path@
            == n)
}

/// `n` is the left-hand side of a register equation.
pub open spec fn is_arrow_name(ss: Seq<ItemFrpStmt>, n: Seq<char>) -> bool {
    exists|i: int|
        0 <= i < ss.len() && (#[trigger] ss[i] matches ItemFrpStmt::Arrow(a) && a.path@ == n)
}

/// `n` is the name of a helper function.
pub open spec fn is_fn_name(ds: Seq<ItemDeclaration>, n: Seq<char>) -> bool {
    exists|i: int|
        0 <= i < ds.len() && (#[trigger] ds[i] matches ItemDeclaration::Fn(f) && f.ident@ == n)
}

/// `n` occurs in a field list.
pub open spec fn is_field_name(fs: Seq<Field>, n: Seq<char>) -> bool {
    exists|i: int| 0 <= i < fs.len() && #[trigger] fs[i].ident@ == n
}

/// `n` occurs in the optional `Args` section.
pub open spec fn is_args_name(args: Option<ItemArgs>, n: Seq<char>) -> bool {
    match args {
        Some(a) => is_field_name(a.fields@, n),
        None => false,
    }
}

/// Only helper functions are declared: user structs and enums are not
/// yet supported by the analysis.
pub open spec fn decls_supported(ds: Seq<ItemDeclaration>) -> bool {
    forall|i: int| 0 <= i < ds.len() ==> (#[trigger] ds[i] matches ItemDeclaration::Fn(_))
}

/// When the symbol table can be built: no name declared twice, and
/// every declared output computed by a combinational equation or helper
/// function, never by a register.
pub open spec fn env_build_ok(
    input: ItemIn,
    output: ItemOut,
    args: Option<ItemArgs>,
    ds: Seq<ItemDeclaration>,
    ss: Seq<ItemFrpStmt>,
) -> bool {
    &&& distinct_names(decl_seq(input, args, ds, ss))
    &&& distinct_names(fields_names(output.fields@))
    &&& forall|j: int|
        0 <= j < output.fields@.len() ==> {
            let n = #[trigger] output.fields@[j].ident@;
            &&& (is_comb_name(ss, n) || is_fn_name(ds, n))
            &&& !is_arrow_name(ss, n)
        }
}

/// The symbol table an accepted program resolves to.
pub open spec fn env_describes<'a>(
    env: VarEnv<'a>,
    input: ItemIn,
    output: ItemOut,
    args: Option<ItemArgs>,
    ds: Seq<ItemDeclaration>,
    ss: Seq<ItemFrpStmt>,
) -> bool {
    let m = env.as_map();
    &&& env.wf()
    &&& forall|n: Seq<char>|
        #[trigger] m.dom().contains(n) <==> (is_args_name(args, n) || is_field_name(
            input.fields@,
            n,
        ) || is_comb_name(ss, n) || is_arrow_name(ss, n) || is_fn_name(ds, n))
    // a register resolves to a cell of its own declared type
    &&& forall|i: int|
        0 <= i < ss.len() ==> (#[trigger] ss[i] matches ItemFrpStmt::Arrow(a) ==> {
            &&& m.dom().contains(a.path@)
            &&& m[a.path@] matches Type::Lifted(TypeLifted::Cell(MaybeType::Resolved(t)))
                && *t == a.ty
        })
    // a combinational equation resolves to a local or, if declared, an
    // output of the field's own declared type
    &&& forall|i: int|
        0 <= i < ss.len() ==> (#[trigger] ss[i] matches ItemFrpStmt::Dependency(d) ==> {
            &&& m.dom().contains(d.path@)
            &&& m[d.path@] matches Type::Lifted(TypeLifted::Signal(sg)) && (sg is Local
                || sg is Output) && (sg is Output <==> is_field_name(
                output.fields@,
                d.path@,
            ))
            &&& is_field_name(output.fields@, d.path@) ==> exists|k: int|
                0 <= k < output.fields@.len() && #[trigger] output.fields@[k].ident@ == d.path@
                    && (m[d.path@] matches Type::Lifted(TypeLifted::Signal(TypeSignal::Output(
                    MaybeType::Resolved(t),
                ))) && *t == output.fields@[k].ty)
        })
    // a helper function resolves to a plain value of its result type or,
    // if declared, an output of the field's own declared type
    &&& forall|i: int|
        0 <= i < ds.len() ==> (#[trigger] ds[i] matches ItemDeclaration::Fn(f) ==> {
            &&& m.dom().contains(f.ident@)
            &&& if is_field_name(output.fields@, f.ident@) {
                exists|k: int|
                    0 <= k < output.fields@.len() && #[trigger] output.fields@[k].ident@
                        == f.ident@ && (m[f.ident@] matches Type::Lifted(TypeLifted::Signal(
                        TypeSignal::Output(MaybeType::Resolved(t)),
                    )) && *t == output.fields@[k].ty)
            } else {
                m[f.ident@] matches Type::Mono(TypeMono::Type(MaybeType::Resolved(t))) && *t
                    == f.output
            }
        })
    // inputs and arguments keep their own categories
    &&& forall|i: int|
        0 <= i < input.fields@.len() ==> {
            &&& m.dom().contains(#[trigger] input.fields@[i].ident@)
            &&& m[input.fields@[i].ident@] matches Type::Lifted(TypeLifted::Signal(
                TypeSignal::Input(MaybeType::Resolved(t)),
            )) && *t == input.fields@[i].ty
        }
    &&& (args matches Some(ar) ==> forall|i: int|
        0 <= i < ar.fields@.len() ==> {
            &&& m.dom().contains(#[trigger] ar.fields@[i].ident@)
            &&& m[ar.fields@[i].ident@] matches Type::Mono(TypeMono::Args(MaybeType::Resolved(
                t,
            ))) && *t == ar.fields@[i].ty
        })
}

/// What building the symbol table returns: the fully classified table
/// exactly when the program declares every name once and computes every
/// output combinationally, else the first offending declaration.
pub open spec fn collect_post<'a>(
    input: ItemIn,
    output: ItemOut,
    args: Option<ItemArgs>,
    ds: Seq<ItemDeclaration>,
    ss: Seq<ItemFrpStmt>,
    r: Result<VarEnv<'a>, Error>,
) -> bool {
    match r {
        Ok(env) => env_build_ok(input, output, args, ds, ss) && env_describes(
            env,
            input,
            output,
            args,
            ds,
            ss,
        ),
        Err(e) => {
            &&& !env_build_ok(input, output, args, ds, ss)
            &&& match e {
                Error::MultipleDefinition(n) => {
                    ||| dup_name(decl_seq(input, args, ds, ss), n@)
                    ||| dup_name(fields_names(output.fields@), n@)
                },
                Error::NotCalculated(n) => is_field_name(output.fields@, n@)
                    && !is_comb_name(ss, n@) && !is_fn_name(ds, n@) && !is_arrow_name(ss, n@),
                Error::CellAsOutput(n) => is_field_name(output.fields@, n@) && is_arrow_name(
                    ss,
                    n@,
                ),
                _ => false,
            }
        },
    }
}

/// `n` occurs among the first `p` names of the list.
pub open spec fn name_in_prefix(s: Seq<Seq<char>>, p: int, n: Seq<char>) -> bool {
    exists|idx: int| 0 <= idx < p && #[trigger] s[idx] == n
}

/// The first `p` names of the list are pairwise distinct.
pub open spec fn distinct_prefix(s: Seq<Seq<char>>, p: int) -> bool {
    forall|i: int, j: int| 0 <= i < j < p && j < s.len() ==> s[i] != s[j]
}

/// The categories the processed prefixes of each section resolve to.
pub open spec fn stage_shapes<'a>(
    m: Map<Seq<char>, Type<'a>>,
    input: &'a ItemIn,
    args: &'a Option<ItemArgs>,
    ds: &'a Vec<ItemDeclaration>,
    ss: &'a Vec<ItemFrpStmt>,
    na: int,
    ni: int,
    ns: int,
    nf: int,
) -> bool {
    &&& (args matches Some(ar) ==> forall|i: int|
        0 <= i < na && i < ar.fields@.len() ==> {
            &&& m.dom().contains(#[trigger] ar.fields@[i].ident@)
            &&& m[ar.fields@[i].ident@] matches Type::Mono(TypeMono::Args(MaybeType::Resolved(
                t,
            ))) && *t == ar.fields@[i].ty
        })
    &&& forall|i: int|
        0 <= i < ni && i < input.fields@.len() ==> {
            &&& m.dom().contains(#[trigger] input.fields@[i].ident@)
            &&& m[input.fields@[i].ident@] matches Type::Lifted(TypeLifted::Signal(
                TypeSignal::Input(MaybeType::Resolved(t)),
            )) && *t == input.fields@[i].ty
        }
    &&& forall|i: int|
        0 <= i < ns && i < ss@.len() ==> (#[trigger] ss@[i] matches ItemFrpStmt::Arrow(a) ==> {
            &&& m.dom().contains(a.path@)
            &&& m[a.path@] matches Type::Lifted(TypeLifted::Cell(MaybeType::Resolved(t)))
                && *t == a.ty
        })
    &&& forall|i: int|
        0 <= i < ns && i < ss@.len() ==> (#[trigger] ss@[i] matches ItemFrpStmt::Dependency(d)
            ==> {
            &&& m.dom().contains(d.path@)
            &&& m[d.path@] == Type::Lifted(TypeLifted::Signal(TypeSignal::Local(
                MaybeType::Unresolved,
            )))
        })
    &&& forall|i: int|
        0 <= i < nf && i < ds@.len() ==> (#[trigger] ds@[i] matches ItemDeclaration::Fn(f)
            ==> {
            &&& m.dom().contains(f.ident@)
            &&& m[f.ident@] matches Type::Mono(TypeMono::Type(MaybeType::Resolved(t))) && *t
                == f.output
        })
}

/// Membership in the full declaration list is membership in one of the
/// sections.
proof fn lemma_decl_seq_membership(
    input: ItemIn,
    args: Option<ItemArgs>,
    ds: Seq<ItemDeclaration>,
    ss: Seq<ItemFrpStmt>,
)
    requires
        decls_supported(ds),
    ensures
        forall|n: Seq<char>|
            #[trigger] name_in_prefix(
                decl_seq(input, args, ds, ss),
                decl_seq(input, args, ds, ss).len() as int,
                n,
            ) <==> (is_args_name(args, n) || is_field_name(input.fields@, n) || is_comb_name(
                ss,
                n,
            ) || is_arrow_name(ss, n) || is_fn_name(ds, n)),
{
    let dseq = decl_seq(input, args, ds, ss);
    let na = args_names(args).len() as int;
    let ni = fields_names(input.fields@).len() as int;
    let ns = stmts_names(ss).len() as int;
    assert forall|n: Seq<char>| name_in_prefix(dseq, dseq.len() as int, n) implies (
    is_args_name(args, n) || is_field_name(input.fields@, n) || is_comb_name(ss, n)
        || is_arrow_name(ss, n) || is_fn_name(ds, n)) by {
        let idx = choose|idx: int| 0 <= idx < dseq.len() && #[trigger] dseq[idx] == n;
        if idx < na {
            match args {
                Some(a) => {
                    assert(a.fields@[idx].ident@ == n);
                },
                None => {
                    assert(false);
                },
            }
        } else if idx < na + ni {
            assert(input.fields@[idx - na].ident@ == n);
        } else if idx < na + ni + ns {
            let i = idx - na - ni;
            assert(stmt_name(ss[i]) == n);
            match ss[i] {
                ItemFrpStmt::Dependency(d) => {
                    assert(is_comb_name(ss, n));
                },
                ItemFrpStmt::Arrow(a) => {
                    assert(is_arrow_name(ss, n));
                },
            }
        } else {
            let i = idx - na - ni - ns;
            assert(decl_name(ds[i]) == n);
            match ds[i] {
                ItemDeclaration::Fn(f) => {
                    assert(is_fn_name(ds, n));
                },
                ItemDeclaration::Struct(_) => {
                    assert(false);
                },
                ItemDeclaration::Enum(_) => {
                    assert(false);
                },
            }
        }
    }
    assert forall|n: Seq<char>|
        (is_args_name(args, n) || is_field_name(input.fields@, n) || is_comb_name(ss, n)
            || is_arrow_name(ss, n) || is_fn_name(ds, n)) implies name_in_prefix(
        dseq,
        dseq.len() as int,
        n,
    ) by {
        if is_args_name(args, n) {
            match args {
                Some(a) => {
                    let i = choose|i: int|
                        0 <= i < a.fields@.len() && #[trigger] a.fields@[i].ident@ == n;
                    assert(dseq[i] == n);
                },
                None => {},
            }
        } else if is_field_name(input.fields@, n) {
            let i = choose|i: int|
                0 <= i < input.fields@.len() && #[trigger] input.fields@[i].ident@ == n;
            assert(dseq[na + i] == n);
        } else if is_comb_name(ss, n) {
            let i = choose|i: int|
                0 <= i < ss.len() && (#[trigger] ss[i] matches ItemFrpStmt::Dependency(d)
                    && d.path@ == n);
            assert(dseq[na + ni + i] == n);
        } else if is_arrow_name(ss, n) {
            let i = choose|i: int|
                0 <= i < ss.len() && (#[trigger] ss[i] matches ItemFrpStmt::Arrow(a) && a.path@
                    == n);
            assert(dseq[na + ni + i] == n);
        } else {
            let i = choose|i: int|
                0 <= i < ds.len() && (#[trigger] ds[i] matches ItemDeclaration::Fn(f)
                    && f.ident@ == n);
            assert(dseq[na + ni + ns + i] == n);
        }
    }
}

/// The symbol table holds exactly the first `p` declared names.
pub open spec fn dom_matches_prefix<'a>(
    m: Map<Seq<char>, Type<'a>>,
    dseq: Seq<Seq<char>>,
    p: int,
) -> bool {
    forall|n: Seq<char>| #[trigger] m.dom().contains(n) <==> name_in_prefix(dseq, p, n)
}

/// A name's category in the freshly built table tells which section
/// declared it.
proof fn lemma_origin<'a>(
    m: Map<Seq<char>, Type<'a>>,
    input: &'a ItemIn,
    args: &'a Option<ItemArgs>,
    ds: &'a Vec<ItemDeclaration>,
    ss: &'a Vec<ItemFrpStmt>,
    n: Seq<char>,
)
    requires
        stage_shapes(
            m,
            input,
            args,
            ds,
            ss,
            args_names(*args).len() as int,
            input.fields@.len() as int,
            ss@.len() as int,
            ds@.len() as int,
        ),
        forall|nn: Seq<char>|
            #[trigger] m.dom().contains(nn) <==> (is_args_name(*args, nn) || is_field_name(
                input.fields@,
                nn,
            ) || is_comb_name(ss@, nn) || is_arrow_name(ss@, nn) || is_fn_name(ds@, nn)),
        m.dom().contains(n),
    ensures
        m[n] matches Type::Mono(TypeMono::Args(_)) ==> is_args_name(*args, n),
        m[n] matches Type::Lifted(TypeLifted::Signal(TypeSignal::Input(_))) ==> is_field_name(
            input.fields@,
            n,
        ),
        m[n] matches Type::Lifted(TypeLifted::Signal(TypeSignal::Local(_))) ==> is_comb_name(
            ss@,
            n,
        ),
        m[n] matches Type::Lifted(TypeLifted::Cell(_)) ==> is_arrow_name(ss@, n),
        m[n] matches Type::Mono(TypeMono::Type(_)) ==> is_fn_name(ds@, n),
        !(m[n] matches Type::Lifted(TypeLifted::Signal(TypeSignal::Output(_)))),
{
    if is_args_name(*args, n) {
        match *args {
            Some(a) => {
                let i = choose|i: int|
                    0 <= i < a.fields@.len() && #[trigger] a.fields@[i].ident@ == n;
                assert(m[n] matches Type::Mono(TypeMono::Args(_)));
            },
            None => {},
        }
    } else if is_field_name(input.fields@, n) {
        let i = choose|i: int|
            0 <= i < input.fields@.len() && #[trigger] input.fields@[i].ident@ == n;
        assert(m[n] matches Type::Lifted(TypeLifted::Signal(TypeSignal::Input(_))));
    } else if is_comb_name(ss@, n) {
        let i = choose|i: int|
            0 <= i < ss@.len() && (#[trigger] ss@[i] matches ItemFrpStmt::Dependency(d)
                && d.path@ == n);
        assert(m[n] matches Type::Lifted(TypeLifted::Signal(TypeSignal::Local(_))));
    } else if is_arrow_name(ss@, n) {
        let i = choose|i: int|
            0 <= i < ss@.len() && (#[trigger] ss@[i] matches ItemFrpStmt::Arrow(a) && a.path@
                == n);
        assert(m[n] matches Type::Lifted(TypeLifted::Cell(_)));
    } else {
        assert(is_fn_name(ds@, n));
        let i = choose|i: int|
            0 <= i < ds@.len() && (#[trigger] ds@[i] matches ItemDeclaration::Fn(f) && f.ident@
                == n);
        assert(m[n] matches Type::Mono(TypeMono::Type(_)));
    }
}

/// Build the global symbol table: arguments and inputs first, then every
/// equation's left-hand side, then the helper functions; finally each
/// declared output must already stand as a combinational value and is
/// reclassified.
#[verifier::rlimit(100)]
pub fn collect_global_idents<'a>(
    input: &'a ItemIn,
    output: &'a ItemOut,
    args: &'a Option<ItemArgs>,
    declarations: &'a Vec<ItemDeclaration>,
    frp_stmts: &'a Vec<ItemFrpStmt>,
) -> (r: Result<VarEnv<'a>, Error>)
    requires
        decls_supported(declarations@),
    ensures
        collect_post(*input, *output, *args, declarations@, frp_stmts@, r),
{
    let ghost dseq = decl_seq(*input, *args, declarations@, frp_stmts@);
    let ghost gna = args_names(*args).len() as int;
    let ghost gni = input.fields@.len() as int;
    let ghost gns = frp_stmts@.len() as int;
    let ghost gnf = declarations@.len() as int;
    let mut env: VarEnv<'a> = VarEnv::new();
    // arguments
    match args {
        Some(a) => {
            let n_a = a.fields.len();
            let mut i: usize = 0;
            while i < n_a
                invariant
                    *args == Some(*a),
                    dseq == decl_seq(*input, *args, declarations@, frp_stmts@),
                    gna == args_names(*args).len() as int,
                    n_a == a.fields@.len(),
                    i <= n_a,
                    env.wf(),
                    dom_matches_prefix(env.as_map(), dseq, i as int),
                    distinct_prefix(dseq, i as int),
                    stage_shapes(
                        env.as_map(),
                        input,
                        args,
                        declarations,
                        frp_stmts,
                        i as int,
                        0,
                        0,
                        0,
                    ),
                decreases n_a - i,
            {
                let f = &a.fields[i];
                proof {
                    assert(dseq[i as int] == f.ident@);
                }
                if env.contains(&f.ident) {
                    proof {
                        assert(name_in_prefix(dseq, i as int, f.ident@));
                        let idx = choose|idx: int|
                            0 <= idx < i && #[trigger] dseq[idx] == f.ident@;
                        assert(!distinct_names(dseq));
                    }
                    return Err(Error::MultipleDefinition(f.ident.clone()));
                }
                env.insert(f.ident.clone(), Type::from_args(&f.ty));
                proof {
                    assert forall|n: Seq<char>| #[trigger] env.as_map().dom().contains(n)
                        <==> name_in_prefix(dseq, (i + 1) as int, n) by {
                        if env.as_map().dom().contains(n) {
                            if n == f.ident@ {
                                assert(dseq[i as int] == n);
                            } else {
                                let idx = choose|idx: int|
                                    0 <= idx < i && #[trigger] dseq[idx] == n;
                            }
                        }
                        if name_in_prefix(dseq, (i + 1) as int, n) {
                            let idx = choose|idx: int|
                                0 <= idx < i + 1 && #[trigger] dseq[idx] == n;
                            if idx < i {
                                assert(name_in_prefix(dseq, i as int, n));
                            }
                        }
                    }
                    assert forall|p: int, q: int| 0 <= p < q < i + 1 && q < dseq.len()
                        implies dseq[p] != dseq[q] by {
                        if q == i {
                            if dseq[p] == dseq[q] {
                                assert(name_in_prefix(dseq, i as int, f.ident@));
                            }
                        }
                    }
                }
                i = i + 1;
            }
        },
        None => {
            proof {
                assert forall|n: Seq<char>| !(#[trigger] env.as_map().dom().contains(n)) by {}
            }
        },
    }
    proof {
        assert(dom_matches_prefix(env.as_map(), dseq, gna));
        assert(distinct_prefix(dseq, gna));
        assert(stage_shapes(env.as_map(), input, args, declarations, frp_stmts, gna, 0, 0, 0));
    }
    // inputs
    let n_i = input.fields.len();
    let mut i: usize = 0;
    while i < n_i
        invariant
            dseq == decl_seq(*input, *args, declarations@, frp_stmts@),
            gna == args_names(*args).len() as int,
            n_i == input.fields@.len(),
            i <= n_i,
            env.wf(),
            dom_matches_prefix(env.as_map(), dseq, gna + i),
            distinct_prefix(dseq, gna + i),
            stage_shapes(
                env.as_map(),
                input,
                args,
                declarations,
                frp_stmts,
                gna,
                i as int,
                0,
                0,
            ),
        decreases n_i - i,
    {
        let f = &input.fields[i];
        proof {
            assert(dseq[gna + i] == f.ident@);
        }
        if env.contains(&f.ident) {
            proof {
                let idx = choose|idx: int| 0 <= idx < gna + i && #[trigger] dseq[idx] == f.ident@;
                assert(!distinct_names(dseq));
            }
            return Err(Error::MultipleDefinition(f.ident.clone()));
        }
        env.insert(f.ident.clone(), Type::from_input(&f.ty));
        proof {
            assert forall|n: Seq<char>| #[trigger] env.as_map().dom().contains(n)
                <==> name_in_prefix(dseq, gna + i + 1, n) by {
                if env.as_map().dom().contains(n) {
                    if n == f.ident@ {
                        assert(dseq[gna + i] == n);
                    } else {
                        let idx = choose|idx: int|
                            0 <= idx < gna + i && #[trigger] dseq[idx] == n;
                    }
                }
                if name_in_prefix(dseq, gna + i + 1, n) {
                    let idx = choose|idx: int| 0 <= idx < gna + i + 1 && #[trigger] dseq[idx] == n;
                    if idx < gna + i {
                        assert(name_in_prefix(dseq, gna + i, n));
                    }
                }
            }
            assert forall|p: int, q: int| 0 <= p < q < gna + i + 1 && q < dseq.len()
                implies dseq[p] != dseq[q] by {
                if q == gna + i {
                    if dseq[p] == dseq[q] {
                        assert(name_in_prefix(dseq, gna + i, f.ident@));
                    }
                }
            }
        }
        i = i + 1;
    }
    // equations
    let n_s = frp_stmts.len();
    let mut i: usize = 0;
    while i < n_s
        invariant
            dseq == decl_seq(*input, *args, declarations@, frp_stmts@),
            gna == args_names(*args).len() as int,
            gni == input.fields@.len() as int,
            n_s == frp_stmts@.len(),
            i <= n_s,
            env.wf(),
            dom_matches_prefix(env.as_map(), dseq, gna + gni + i),
            distinct_prefix(dseq, gna + gni + i),
            stage_shapes(
                env.as_map(),
                input,
                args,
                declarations,
                frp_stmts,
                gna,
                gni,
                i as int,
                0,
            ),
        decreases n_s - i,
    {
        proof {
            assert(dseq[gna + gni + i] == stmt_name(frp_stmts@[i as int]));
        }
        let ghost pos = gna + gni + i;
        match &frp_stmts[i] {
            ItemFrpStmt::Dependency(d) => {
                if env.contains(&d.path) {
                    proof {
                        let idx = choose|idx: int|
                            0 <= idx < pos && #[trigger] dseq[idx] == d.path@;
                        assert(!distinct_names(dseq));
                    }
                    return Err(Error::MultipleDefinition(d.path.clone()));
                }
                env.insert(d.path.clone(), Type::from_local());
            },
            ItemFrpStmt::Arrow(a) => {
                if env.contains(&a.path) {
                    proof {
                        let idx = choose|idx: int|
                            0 <= idx < pos && #[trigger] dseq[idx] == a.path@;
                        assert(!distinct_names(dseq));
                    }
                    return Err(Error::MultipleDefinition(a.path.clone()));
                }
                env.insert(a.path.clone(), Type::from_cell(&a.ty));
            },
        }
        proof {
            let nm = stmt_name(frp_stmts@[i as int]);
            assert forall|n: Seq<char>| #[trigger] env.as_map().dom().contains(n)
                <==> name_in_prefix(dseq, pos + 1, n) by {
                if env.as_map().dom().contains(n) {
                    if n == nm {
                        assert(dseq[pos] == n);
                    } else {
                        let idx = choose|idx: int| 0 <= idx < pos && #[trigger] dseq[idx] == n;
                    }
                }
                if name_in_prefix(dseq, pos + 1, n) {
                    let idx = choose|idx: int| 0 <= idx < pos + 1 && #[trigger] dseq[idx] == n;
                    if idx < pos {
                        assert(name_in_prefix(dseq, pos, n));
                    }
                }
            }
            assert forall|p: int, q: int| 0 <= p < q < pos + 1 && q < dseq.len() implies dseq[p]
                != dseq[q] by {
                if q == pos {
                    if dseq[p] == dseq[q] {
                        assert(name_in_prefix(dseq, pos, nm));
                    }
                }
            }
        }
        i = i + 1;
    }
    // helper functions
    let n_f = declarations.len();
    let mut i: usize = 0;
    while i < n_f
        invariant
            decls_supported(declarations@),
            dseq == decl_seq(*input, *args, declarations@, frp_stmts@),
            gna == args_names(*args).len() as int,
            gni == input.fields@.len() as int,
            gns == frp_stmts@.len() as int,
            n_f == declarations@.len(),
            i <= n_f,
            env.wf(),
            dom_matches_prefix(env.as_map(), dseq, gna + gni + gns + i),
            distinct_prefix(dseq, gna + gni + gns + i),
            stage_shapes(
                env.as_map(),
                input,
                args,
                declarations,
                frp_stmts,
                gna,
                gni,
                gns,
                i as int,
            ),
        decreases n_f - i,
    {
        let ghost pos = gna + gni + gns + i;
        proof {
            assert(dseq[pos] == decl_name(declarations@[i as int]));
        }
        match &declarations[i] {
            ItemDeclaration::Fn(f) => {
                if env.contains(&f.ident) {
                    proof {
                        let idx = choose|idx: int|
                            0 <= idx < pos && #[trigger] dseq[idx] == f.ident@;
                        assert(!distinct_names(dseq));
                    }
                    return Err(Error::MultipleDefinition(f.ident.clone()));
                }
                env.insert(f.ident.clone(), Type::resolved(&f.output));
                proof {
                    assert forall|n: Seq<char>| #[trigger] env.as_map().dom().contains(n)
                        <==> name_in_prefix(dseq, pos + 1, n) by {
                        if env.as_map().dom().contains(n) {
                            if n == f.ident@ {
                                assert(dseq[pos] == n);
                            } else {
                                let idx = choose|idx: int|
                                    0 <= idx < pos && #[trigger] dseq[idx] == n;
                            }
                        }
                        if name_in_prefix(dseq, pos + 1, n) {
                            let idx = choose|idx: int|
                                0 <= idx < pos + 1 && #[trigger] dseq[idx] == n;
                            if idx < pos {
                                assert(name_in_prefix(dseq, pos, n));
                            }
                        }
                    }
                    assert forall|p: int, q: int| 0 <= p < q < pos + 1 && q < dseq.len()
                        implies dseq[p] != dseq[q] by {
                        if q == pos {
                            if dseq[p] == dseq[q] {
                                assert(name_in_prefix(dseq, pos, f.ident@));
                            }
                        }
                    }
                }
            },
            ItemDeclaration::Struct(_) => {
                proof {
                    assert(false);
                }
            },
            ItemDeclaration::Enum(_) => {
                proof {
                    assert(false);
                }
            },
        }
        i = i + 1;
    }
    proof {
        assert(gna + gni + gns + gnf == dseq.len());
        lemma_decl_seq_membership(*input, *args, declarations@, frp_stmts@);
    }
    // outputs: reclassify each declared output
    let ghost m4 = env.as_map();
    let n_o = output.fields.len();
    let ghost out_names = fields_names(output.fields@);
    let mut j: usize = 0;
    while j < n_o
        invariant
            decls_supported(declarations@),
            dseq == decl_seq(*input, *args, declarations@, frp_stmts@),
            out_names == fields_names(output.fields@),
            distinct_names(dseq),
            n_o == output.fields@.len(),
            j <= n_o,
            env.wf(),
            stage_shapes(
                m4,
                input,
                args,
                declarations,
                frp_stmts,
                args_names(*args).len() as int,
                input.fields@.len() as int,
                frp_stmts@.len() as int,
                declarations@.len() as int,
            ),
            forall|nn: Seq<char>|
                #[trigger] m4.dom().contains(nn) <==> (is_args_name(*args, nn)
                    || is_field_name(input.fields@, nn) || is_comb_name(frp_stmts@, nn)
                    || is_arrow_name(frp_stmts@, nn) || is_fn_name(declarations@, nn)),
            forall|nn: Seq<char>|
                #[trigger] env.as_map().dom().contains(nn) <==> m4.dom().contains(nn),
            distinct_prefix(out_names, j as int),
            forall|k: int|
                0 <= k < j ==> {
                    let nn = #[trigger] output.fields@[k].ident@;
                    &&& (is_comb_name(frp_stmts@, nn) || is_fn_name(declarations@, nn))
                    &&& !is_arrow_name(frp_stmts@, nn)
                    &&& env.as_map()[nn] matches Type::Lifted(TypeLifted::Signal(
                        TypeSignal::Output(MaybeType::Resolved(t)),
                    )) && *t == output.fields@[k].ty
                },
            forall|nn: Seq<char>|
                m4.dom().contains(nn) && !name_in_prefix(out_names, j as int, nn)
                    ==> #[trigger] env.as_map()[nn] == m4[nn],
        decreases n_o - j,
    {
        let f = &output.fields[j];
        proof {
            assert(out_names[j as int] == f.ident@);
        }
        match env.get(&f.ident) {
            None => {
                proof {
                    assert(!m4.dom().contains(f.ident@));
                }
                return Err(Error::NotCalculated(f.ident.clone()));
            },
            Some(t) => {
                let ghost was_processed = name_in_prefix(out_names, j as int, f.ident@);
                proof {
                    if !was_processed {
                        assert(env.as_map()[f.ident@] == m4[f.ident@]);
                        lemma_origin(m4, input, args, declarations, frp_stmts, f.ident@);
                    } else {
                        let k = choose|k: int|
                            0 <= k < j && #[trigger] out_names[k] == f.ident@;
                        assert(output.fields@[k].ident@ == f.ident@);
                    }
                }
                match t {
                    Type::Lifted(TypeLifted::Cell(_)) => {
                        proof {
                            assert(!was_processed);
                            assert(is_arrow_name(frp_stmts@, f.ident@));
                        }
                        return Err(Error::CellAsOutput(f.ident.clone()));
                    },
                    Type::Lifted(TypeLifted::Signal(TypeSignal::Output(_))) => {
                        proof {
                            assert(was_processed);
                            let k = choose|k: int|
                                0 <= k < j && #[trigger] out_names[k] == f.ident@;
                            assert(out_names[j as int] == f.ident@);
                            assert(!distinct_names(fields_names(output.fields@)));
                        }
                        return Err(Error::MultipleDefinition(f.ident.clone()));
                    },
                    Type::Lifted(TypeLifted::Signal(TypeSignal::Input(_))) => {
                        proof {
                            assert(!was_processed);
                            assert(is_field_name(input.fields@, f.ident@));
                            lemma_not_other_sections(
                                *input,
                                *args,
                                declarations@,
                                frp_stmts@,
                                f.ident@,
                            );
                        }
                        return Err(Error::NotCalculated(f.ident.clone()));
                    },
                    Type::Mono(TypeMono::Args(_)) => {
                        proof {
                            assert(!was_processed);
                            assert(is_args_name(*args, f.ident@));
                            lemma_not_other_sections(
                                *input,
                                *args,
                                declarations@,
                                frp_stmts@,
                                f.ident@,
                            );
                        }
                        return Err(Error::NotCalculated(f.ident.clone()));
                    },
                    Type::Lifted(TypeLifted::Signal(TypeSignal::Local(_)))
                        | Type::Mono(TypeMono::Type(_)) => {
                        proof {
                            assert(!was_processed);
                            assert(is_comb_name(frp_stmts@, f.ident@) || is_fn_name(
                                declarations@,
                                f.ident@,
                            ));
                            lemma_comb_fn_not_arrow(
                                *input,
                                *args,
                                declarations@,
                                frp_stmts@,
                                f.ident@,
                            );
                        }
                        env.set(&f.ident, Type::from_output(&f.ty));
                        proof {
                            assert forall|p: int, q: int|
                                0 <= p < q < j + 1 && q < out_names.len() implies out_names[p]
                                != out_names[q] by {
                                if q == j {
                                    if out_names[p] == out_names[q] {
                                        assert(name_in_prefix(out_names, j as int, f.ident@));
                                    }
                                }
                            }
                            assert forall|k: int| 0 <= k < j + 1 implies {
                                let nn = #[trigger] output.fields@[k].ident@;
                                &&& (is_comb_name(frp_stmts@, nn) || is_fn_name(
                                    declarations@,
                                    nn,
                                ))
                                &&& !is_arrow_name(frp_stmts@, nn)
                                &&& env.as_map()[nn] matches Type::Lifted(TypeLifted::Signal(
                                    TypeSignal::Output(MaybeType::Resolved(t)),
                                )) && *t == output.fields@[k].ty
                            } by {
                                if k < j {
                                    assert(output.fields@[k].ident@ != f.ident@);
                                }
                            }
                            assert forall|nn: Seq<char>|
                                m4.dom().contains(nn) && !name_in_prefix(
                                    out_names,
                                    (j + 1) as int,
                                    nn,
                                ) implies #[trigger] env.as_map()[nn] == m4[nn] by {
                                assert(!name_in_prefix(out_names, j as int, nn));
                                assert(nn != f.ident@) by {
                                    assert(out_names[j as int] == f.ident@);
                                }
                            }
                        }
                    },
                }
            },
        }
        j = j + 1;
    }
    proof {
        assert(env_build_ok(*input, *output, *args, declarations@, frp_stmts@)) by {
            assert forall|jj: int| 0 <= jj < output.fields@.len() implies {
                let n = #[trigger] output.fields@[jj].ident@;
                &&& (is_comb_name(frp_stmts@, n) || is_fn_name(declarations@, n))
                &&& !is_arrow_name(frp_stmts@, n)
            } by {}
        }
        lemma_env_describes_final(
            env,
            m4,
            input,
            output,
            args,
            declarations,
            frp_stmts,
        );
    }
    Ok(env)
}

/// A name declared by the inputs or arguments is, in a program without
/// duplicate declarations, not an equation or helper-function name.
proof fn lemma_not_other_sections(
    input: ItemIn,
    args: Option<ItemArgs>,
    ds: Seq<ItemDeclaration>,
    ss: Seq<ItemFrpStmt>,
    n: Seq<char>,
)
    requires
        distinct_names(decl_seq(input, args, ds, ss)),
        is_args_name(args, n) || is_field_name(input.fields@, n),
    ensures
        !is_comb_name(ss, n),
        !is_arrow_name(ss, n),
        !is_fn_name(ds, n),
{
    let dseq = decl_seq(input, args, ds, ss);
    let na = args_names(args).len() as int;
    let ni = fields_names(input.fields@).len() as int;
    let ns = stmts_names(ss).len() as int;
    let early: int = if is_args_name(args, n) {
        match args {
            Some(a) => {
                let i = choose|i: int|
                    0 <= i < a.fields@.len() && #[trigger] a.fields@[i].ident@ == n;
                i
            },
            None => 0,
        }
    } else {
        let i = choose|i: int|
            0 <= i < input.fields@.len() && #[trigger] input.fields@[i].ident@ == n;
        na + i
    };
    assert(0 <= early < na + ni && dseq[early] == n);
    if is_comb_name(ss, n) {
        let i = choose|i: int|
            0 <= i < ss.len() && (#[trigger] ss[i] matches ItemFrpStmt::Dependency(d) && d.path@
                == n);
        assert(dseq[na + ni + i] == n);
    }
    if is_arrow_name(ss, n) {
        let i = choose|i: int|
            0 <= i < ss.len() && (#[trigger] ss[i] matches ItemFrpStmt::Arrow(a) && a.path@
                == n);
        assert(dseq[na + ni + i] == n);
    }
    if is_fn_name(ds, n) {
        let i = choose|i: int|
            0 <= i < ds.len() && (#[trigger] ds[i] matches ItemDeclaration::Fn(f) && f.ident@
                == n);
        assert(dseq[na + ni + ns + i] == n);
    }
}

/// A combinational or helper-function name is, in a program without
/// duplicate declarations, never also a register name.
proof fn lemma_comb_fn_not_arrow(
    input: ItemIn,
    args: Option<ItemArgs>,
    ds: Seq<ItemDeclaration>,
    ss: Seq<ItemFrpStmt>,
    n: Seq<char>,
)
    requires
        distinct_names(decl_seq(input, args, ds, ss)),
        is_comb_name(ss, n) || is_fn_name(ds, n),
    ensures
        !is_arrow_name(ss, n),
{
    let dseq = decl_seq(input, args, ds, ss);
    let na = args_names(args).len() as int;
    let ni = fields_names(input.fields@).len() as int;
    let ns = stmts_names(ss).len() as int;
    if is_arrow_name(ss, n) {
        let ia = choose|i: int|
            0 <= i < ss.len() && (#[trigger] ss[i] matches ItemFrpStmt::Arrow(a) && a.path@
                == n);
        assert(dseq[na + ni + ia] == n);
        if is_comb_name(ss, n) {
            let ic = choose|i: int|
                0 <= i < ss.len() && (#[trigger] ss[i] matches ItemFrpStmt::Dependency(d)
                    && d.path@ == n);
            assert(dseq[na + ni + ic] == n);
            assert(ic != ia);
        } else {
            let ic = choose|i: int|
                0 <= i < ds.len() && (#[trigger] ds[i] matches ItemDeclaration::Fn(f)
                    && f.ident@ == n);
            assert(dseq[na + ni + ns + ic] == n);
        }
    }
}

/// Assemble the final description of the symbol table after the outputs
/// have been reclassified.
proof fn lemma_env_describes_final<'a>(
    env: VarEnv<'a>,
    m4: Map<Seq<char>, Type<'a>>,
    input: &'a ItemIn,
    output: &'a ItemOut,
    args: &'a Option<ItemArgs>,
    ds: &'a Vec<ItemDeclaration>,
    ss: &'a Vec<ItemFrpStmt>,
)
    requires
        env.wf(),
        distinct_names(decl_seq(*input, *args, ds@, ss@)),
        stage_shapes(
            m4,
            input,
            args,
            ds,
            ss,
            args_names(*args).len() as int,
            input.fields@.len() as int,
            ss@.len() as int,
            ds@.len() as int,
        ),
        forall|nn: Seq<char>|
            #[trigger] m4.dom().contains(nn) <==> (is_args_name(*args, nn) || is_field_name(
                input.fields@,
                nn,
            ) || is_comb_name(ss@, nn) || is_arrow_name(ss@, nn) || is_fn_name(ds@, nn)),
        forall|nn: Seq<char>|
            #[trigger] env.as_map().dom().contains(nn) <==> m4.dom().contains(nn),
        forall|k: int|
            0 <= k < output.fields@.len() ==> {
                let nn = #[trigger] output.fields@[k].ident@;
                &&& (is_comb_name(ss@, nn) || is_fn_name(ds@, nn))
                &&& !is_arrow_name(ss@, nn)
                &&& env.as_map()[nn] matches Type::Lifted(TypeLifted::Signal(
                    TypeSignal::Output(MaybeType::Resolved(t)),
                )) && *t == output.fields@[k].ty
            },
        forall|nn: Seq<char>|
            m4.dom().contains(nn) && !name_in_prefix(
                fields_names(output.fields@),
                output.fields@.len() as int,
                nn,
            ) ==> #[trigger] env.as_map()[nn] == m4[nn],
    ensures
        env_describes(env, *input, *output, *args, ds@, ss@),
{
    let m = env.as_map();
    let out_names = fields_names(output.fields@);
    let n_o = output.fields@.len() as int;
    assert forall|nn: Seq<char>|
        #[trigger] is_field_name(output.fields@, nn) <==> name_in_prefix(
            out_names,
            n_o,
            nn,
        ) by {
        if is_field_name(output.fields@, nn) {
            let k = choose|k: int|
                0 <= k < output.fields@.len() && #[trigger] output.fields@[k].ident@ == nn;
            assert(out_names[k] == nn);
        }
        if name_in_prefix(out_names, n_o, nn) {
            let k = choose|k: int| 0 <= k < n_o && #[trigger] out_names[k] == nn;
            assert(output.fields@[k].ident@ == nn);
        }
    }
    // registers keep their cell category
    assert forall|i: int|
        0 <= i < ss@.len() implies (#[trigger] ss@[i] matches ItemFrpStmt::Arrow(a) ==> {
        &&& m.dom().contains(a.path@)
        &&& m[a.path@] matches Type::Lifted(TypeLifted::Cell(MaybeType::Resolved(t))) && *t
            == a.ty
    }) by {
        match ss@[i] {
            ItemFrpStmt::Arrow(a) => {
                assert(is_arrow_name(ss@, a.path@));
                if is_field_name(output.fields@, a.path@) {
                    let k = choose|k: int|
                        0 <= k < output.fields@.len() && #[trigger] output.fields@[k].ident@
                            == a.path@;
                }
                assert(!name_in_prefix(out_names, n_o, a.path@));
                assert(m[a.path@] == m4[a.path@]);
            },
            _ => {},
        }
    }
    // combinational equations are locals or declared outputs
    assert forall|i: int|
        0 <= i < ss@.len() implies (#[trigger] ss@[i] matches ItemFrpStmt::Dependency(d) ==> {
        &&& m.dom().contains(d.path@)
        &&& m[d.path@] matches Type::Lifted(TypeLifted::Signal(sg)) && (sg is Local
            || sg is Output) && (sg is Output <==> is_field_name(output.fields@, d.path@))
    }) by {
        match ss@[i] {
            ItemFrpStmt::Dependency(d) => {
                assert(is_comb_name(ss@, d.path@));
                if is_field_name(output.fields@, d.path@) {
                    let k = choose|k: int|
                        0 <= k < output.fields@.len() && #[trigger] output.fields@[k].ident@
                            == d.path@;
                } else {
                    assert(!name_in_prefix(out_names, n_o, d.path@));
                    assert(m[d.path@] == m4[d.path@]);
                }
            },
            _ => {},
        }
    }
    // helper functions are plain values or declared outputs
    assert forall|i: int|
        0 <= i < ds@.len() implies (#[trigger] ds@[i] matches ItemDeclaration::Fn(f) ==> {
        &&& m.dom().contains(f.ident@)
        &&& if is_field_name(output.fields@, f.ident@) {
            m[f.ident@] matches Type::Lifted(TypeLifted::Signal(TypeSignal::Output(_)))
        } else {
            m[f.ident@] matches Type::Mono(TypeMono::Type(MaybeType::Resolved(t))) && *t
                == f.output
        }
    }) by {
        match ds@[i] {
            ItemDeclaration::Fn(f) => {
                assert(is_fn_name(ds@, f.ident@));
                if is_field_name(output.fields@, f.ident@) {
                    let k = choose|k: int|
                        0 <= k < output.fields@.len() && #[trigger] output.fields@[k].ident@
                            == f.ident@;
                } else {
                    assert(!name_in_prefix(out_names, n_o, f.ident@));
                    assert(m[f.ident@] == m4[f.ident@]);
                }
            },
            _ => {},
        }
    }
    // inputs and arguments are untouched
    assert forall|i: int| 0 <= i < input.fields@.len() implies {
        &&& m.dom().contains(#[trigger] input.fields@[i].ident@)
        &&& m[input.fields@[i].ident@] matches Type::Lifted(TypeLifted::Signal(
            TypeSignal::Input(MaybeType::Resolved(t)),
        )) && *t == input.fields@[i].ty
    } by {
        let nn = input.fields@[i].ident@;
        assert(is_field_name(input.fields@, nn));
        lemma_not_other_sections(*input, *args, ds@, ss@, nn);
        if name_in_prefix(out_names, n_o, nn) {
            let k = choose|k: int| 0 <= k < n_o && #[trigger] out_names[k] == nn;
            assert(output.fields@[k].ident@ == nn);
        }
        assert(m[nn] == m4[nn]);
    }
    match *args {
        Some(ar) => {
            assert forall|i: int| 0 <= i < ar.fields@.len() implies {
                &&& m.dom().contains(#[trigger] ar.fields@[i].ident@)
                &&& m[ar.fields@[i].ident@] matches Type::Mono(TypeMono::Args(
                    MaybeType::Resolved(t),
                )) && *t == ar.fields@[i].ty
            } by {
                let nn = ar.fields@[i].ident@;
                assert(is_args_name(*args, nn));
                lemma_not_other_sections(*input, *args, ds@, ss@, nn);
                if name_in_prefix(out_names, n_o, nn) {
                    let k = choose|k: int| 0 <= k < n_o && #[trigger] out_names[k] == nn;
                    assert(output.fields@[k].ident@ == nn);
                }
                assert(m[nn] == m4[nn]);
            }
        },
        None => {},
    }
}

// ---------------------------------------------------------------------
// The two dependency graphs and the ordered plan.
// ---------------------------------------------------------------------

/// The combinational equations, in source order.
pub open spec fn comb_of(ss: Seq<ItemFrpStmt>) -> Seq<FrpStmtDependency>
    decreases ss,
{
    if ss.len() == 0 {
        Seq::empty()
    } else {
        comb_of(ss.drop_last()) + (match ss.last() {
            ItemFrpStmt::Dependency(d) => seq![d],
            ItemFrpStmt::Arrow(_) => Seq::empty(),
        })
    }
}

/// The register equations, in source order.
pub open spec fn arrows_of(ss: Seq<ItemFrpStmt>) -> Seq<FrpStmtArrow>
    decreases ss,
{
    if ss.len() == 0 {
        Seq::empty()
    } else {
        arrows_of(ss.drop_last()) + (match ss.last() {
            ItemFrpStmt::Dependency(_) => Seq::empty(),
            ItemFrpStmt::Arrow(a) => seq![a],
        })
    }
}

/// `n` is declared by some section of the program.
pub open spec fn name_declared(
    input: ItemIn,
    args: Option<ItemArgs>,
    ds: Seq<ItemDeclaration>,
    ss: Seq<ItemFrpStmt>,
    n: Seq<char>,
) -> bool {
    is_args_name(args, n) || is_field_name(input.fields@, n) || is_comb_name(ss, n)
        || is_arrow_name(ss, n) || is_fn_name(ds, n)
}

/// `n` is constant over the life of an instance: an argument, or a
/// helper function that is not reclassified as an output.
pub open spec fn name_mono(
    output: ItemOut,
    args: Option<ItemArgs>,
    ds: Seq<ItemDeclaration>,
    n: Seq<char>,
) -> bool {
    is_args_name(args, n) || (is_fn_name(ds, n) && !is_field_name(output.fields@, n))
}

/// Every name in `reads` is declared; under `forbid`, every one is
/// constant-like.
pub open spec fn clean_syn(
    input: ItemIn,
    output: ItemOut,
    args: Option<ItemArgs>,
    ds: Seq<ItemDeclaration>,
    ss: Seq<ItemFrpStmt>,
    reads: Set<Seq<char>>,
    forbid: bool,
) -> bool {
    forall|n: Seq<char>|
        #[trigger] reads.contains(n) ==> (name_declared(input, args, ds, ss, n) && (forbid
            ==> name_mono(output, args, ds, n)))
}

/// Every expression of the program reads only declared names; register
/// initializers and helper-function bodies read only constant-like
/// names.
pub open spec fn all_clean(
    input: ItemIn,
    output: ItemOut,
    args: Option<ItemArgs>,
    ds: Seq<ItemDeclaration>,
    ss: Seq<ItemFrpStmt>,
) -> bool {
    &&& forall|i: int|
        0 <= i < ds.len() ==> (#[trigger] ds[i] matches ItemDeclaration::Fn(f) ==> clean_syn(
            input,
            output,
            args,
            ds,
            ss,
            fn_reads(f),
            true,
        ))
    &&& forall|i: int|
        0 <= i < ss.len() ==> (#[trigger] ss[i] matches ItemFrpStmt::Dependency(d)
            ==> clean_syn(input, output, args, ds, ss, free_reads(d.expr, Set::empty()), false))
    &&& forall|i: int|
        0 <= i < ss.len() ==> (#[trigger] ss[i] matches ItemFrpStmt::Arrow(a) ==> (clean_syn(
            input,
            output,
            args,
            ds,
            ss,
            free_reads(*a.arrow_expr.expr, Set::empty()),
            true,
        ) && clean_syn(input, output, args, ds, ss, free_reads(a.expr, Set::empty()), false)))
}

/// `cyc` is a cycle among the combinational equations: each one reads
/// the next one's name, wrapping around.
pub open spec fn comb_reads_cycle(cs: Seq<FrpStmtDependency>, cyc: Seq<int>) -> bool {
    &&& cyc.len() > 0
    &&& forall|k: int|
        0 <= k < cyc.len() ==> (0 <= #[trigger] cyc[k] < cs.len() && free_reads(
            cs[cyc[k]].expr,
            Set::empty(),
        ).contains(cs[cyc[(k + 1) % (cyc.len() as int)]].path@))
}

/// A genuine cycle exists among the combinational equations.
pub open spec fn comb_cycle(ss: Seq<ItemFrpStmt>) -> bool {
    exists|cyc: Seq<int>| #[trigger] comb_reads_cycle(comb_of(ss), cyc)
}

/// `cyc` is a cycle among the register updates: each next-value
/// expression reads the next register's name, wrapping around.
pub open spec fn arrow_reads_cycle(cs: Seq<FrpStmtArrow>, cyc: Seq<int>) -> bool {
    &&& cyc.len() > 0
    &&& forall|k: int|
        0 <= k < cyc.len() ==> (0 <= #[trigger] cyc[k] < cs.len() && free_reads(
            cs[cyc[k]].expr,
            Set::empty(),
        ).contains(cs[cyc[(k + 1) % (cyc.len() as int)]].path@))
}

/// A genuine cycle exists among the register updates.
pub open spec fn arrow_cycle(ss: Seq<ItemFrpStmt>) -> bool {
    exists|cyc: Seq<int>| #[trigger] arrow_reads_cycle(arrows_of(ss), cyc)
}

/// The named equation lies on a genuine combinational cycle.
pub open spec fn named_comb_cycle(ss: Seq<ItemFrpStmt>, n: Seq<char>) -> bool {
    exists|cyc: Seq<int>|
        #[trigger] comb_reads_cycle(comb_of(ss), cyc) && (exists|k: int|
            0 <= k < cyc.len() && comb_of(ss)[#[trigger] cyc[k]].path@ == n)
}

/// The named register lies on a genuine update cycle.
pub open spec fn named_arrow_cycle(ss: Seq<ItemFrpStmt>, n: Seq<char>) -> bool {
    exists|cyc: Seq<int>|
        #[trigger] arrow_reads_cycle(arrows_of(ss), cyc) && (exists|k: int|
            0 <= k < cyc.len() && arrows_of(ss)[#[trigger] cyc[k]].path@ == n)
}

/// What a failing analysis reports: the one offending declaration, the
/// offending reads of one expression, or one equation on a genuine
/// cycle — each with the fact that convicts it.
pub open spec fn deps_err(
    es: Seq<Error>,
    input: ItemIn,
    output: ItemOut,
    args: Option<ItemArgs>,
    ds: Seq<ItemDeclaration>,
    ss: Seq<ItemFrpStmt>,
) -> bool {
    ||| (es.len() == 1 && match es[0] {
        Error::MultipleDefinition(n) => dup_name(decl_seq(input, args, ds, ss), n@) || dup_name(
            fields_names(output.fields@),
            n@,
        ),
        Error::NotCalculated(n) => is_field_name(output.fields@, n@) && !is_comb_name(ss, n@)
            && !is_fn_name(ds, n@) && !is_arrow_name(ss, n@),
        Error::CellAsOutput(n) => is_field_name(output.fields@, n@) && is_arrow_name(ss, n@),
        _ => false,
    })
    ||| (only_extraction_errs(es) && !all_clean(input, output, args, ds, ss))
    ||| (es.len() == 1 && match es[0] {
        Error::CyclicDependency(n) => named_comb_cycle(ss, n@) || named_arrow_cycle(ss, n@),
        _ => false,
    })
}

/// Find a name in a list of names.
fn find_name(names: &Vec<String>, x: &String) -> (r: Option<usize>)
    ensures
        match r {
            Some(j) => j < names@.len() && names@[j as int]@ == x@,
            None => forall|j: int| 0 <= j < names@.len() ==> names@[j]@ != x@,
        },
{
    let n = names.len();
    let mut i: usize = 0;
    while i < n
        invariant
            n == names@.len(),
            i <= n,
            forall|j: int| 0 <= j < i ==> names@[j]@ != x@,
        decreases n - i,
    {
        if names[i].eq(x) {
            return Some(i);
        }
        i = i + 1;
    }
    None
}

/// Build the index graph: equation `i` points at every equation whose
/// name it reads.
fn build_adj(deps: &Vec<Vec<String>>, names: &Vec<String>) -> (adj: Vec<Vec<usize>>)
    requires
        deps@.len() == names@.len(),
        forall|p: int, q: int| 0 <= p < q < names@.len() ==> names@[p]@ != names@[q]@,
    ensures
        adj@.len() == names@.len(),
        wf_graph(adj@),
        forall|i: int, j: int|
            0 <= i < adj@.len() && 0 <= j < names@.len() ==> (#[trigger] edge(adj@, i, j)
                <==> names_set(deps@[i]@).contains(names@[j]@)),
{
    let n = deps.len();
    let mut adj: Vec<Vec<usize>> = Vec::new();
    let mut i: usize = 0;
    while i < n
        invariant
            n == deps@.len(),
            n == names@.len(),
            i <= n,
            adj@.len() == i,
            forall|p: int, q: int| 0 <= p < q < names@.len() ==> names@[p]@ != names@[q]@,
            forall|p: int, k: int|
                0 <= p < i && 0 <= k < adj@[p]@.len() ==> #[trigger] adj@[p]@[k] < n,
            forall|p: int, j: int|
                0 <= p < i && 0 <= j < names@.len() ==> ((exists|k: int|
                    0 <= k < adj@[p]@.len() && #[trigger] adj@[p]@[k] == j) <==> names_set(
                    deps@[p]@,
                ).contains(names@[j]@)),
        decreases n - i,
    {
        let row = &deps[i];
        let m = row.len();
        let mut edges: Vec<usize> = Vec::new();
        let mut k: usize = 0;
        while k < m
            invariant
                m == row@.len(),
                k <= m,
                n == names@.len(),
                row == &deps@[i as int],
                i < deps@.len(),
                forall|p: int, q: int| 0 <= p < q < names@.len() ==> names@[p]@ != names@[q]@,
                forall|kk: int| 0 <= kk < edges@.len() ==> #[trigger] edges@[kk] < n,
                // every recorded edge is a read
                forall|kk: int|
                    0 <= kk < edges@.len() ==> names_set(row@.subrange(0, k as int)).contains(
                        names@[#[trigger] edges@[kk] as int]@,
                    ),
                // every read among the names so far is recorded
                forall|j: int|
                    0 <= j < names@.len() && names_set(row@.subrange(0, k as int)).contains(
                        names@[j]@,
                    ) ==> exists|kk: int| 0 <= kk < edges@.len() && #[trigger] edges@[kk] == j,
            decreases m - k,
        {
            let ghost pre = row@.subrange(0, k as int);
            let ghost cur = row@.subrange(0, (k + 1) as int);
            proof {
                assert(cur.drop_last() =~= pre);
                assert(cur.last() == row@[k as int]);
                assert forall|nn: Seq<char>| names_set(cur).contains(nn) implies (names_set(
                    pre,
                ).contains(nn) || nn == row@[k as int]@) by {
                    let idx = choose|idx: int| 0 <= idx < cur.len() && #[trigger] cur[idx]@ == nn;
                    if idx < pre.len() {
                        assert(pre[idx]@ == nn);
                    }
                }
                assert forall|nn: Seq<char>| names_set(pre).contains(nn) implies names_set(
                    cur,
                ).contains(nn) by {
                    let idx = choose|idx: int| 0 <= idx < pre.len() && #[trigger] pre[idx]@ == nn;
                    assert(cur[idx]@ == nn);
                }
                assert(names_set(cur).contains(row@[k as int]@)) by {
                    assert(cur[k as int]@ == row@[k as int]@);
                }
            }
            let ghost edges0 = edges@;
            match find_name(names, &row[k]) {
                Some(j) => {
                    edges.push(j);
                    proof {
                        assert forall|jj: int|
                            0 <= jj < names@.len() && names_set(cur).contains(names@[jj]@)
                            implies exists|kk: int|
                                0 <= kk < edges@.len() && #[trigger] edges@[kk] == jj by {
                            if names_set(pre).contains(names@[jj]@) {
                                let kk = choose|kk: int|
                                    0 <= kk < edges0.len() && #[trigger] edges0[kk] == jj;
                                assert(edges@[kk] == jj);
                            } else {
                                assert(names@[jj]@ == row@[k as int]@);
                                assert(names@[jj]@ == names@[j as int]@);
                                assert(jj == j as int);
                                assert(edges@[edges@.len() - 1] == j);
                            }
                        }
                        assert forall|kk: int| 0 <= kk < edges@.len() implies names_set(
                            cur,
                        ).contains(names@[(#[trigger] edges@[kk]) as int]@) by {
                            if kk < edges0.len() {
                                assert(edges@[kk] == edges0[kk]);
                            } else {
                                assert(edges@[kk] == j);
                            }
                        }
                    }
                },
                None => {
                    proof {
                        assert forall|jj: int|
                            0 <= jj < names@.len() && names_set(cur).contains(names@[jj]@)
                            implies exists|kk: int|
                                0 <= kk < edges@.len() && #[trigger] edges@[kk] == jj by {
                            assert(names@[jj]@ != row@[k as int]@);
                            assert(names_set(pre).contains(names@[jj]@));
                            let kk = choose|kk: int|
                                0 <= kk < edges0.len() && #[trigger] edges0[kk] == jj;
                            assert(edges@[kk] == jj);
                        }
                        assert forall|kk: int| 0 <= kk < edges@.len() implies names_set(
                            cur,
                        ).contains(names@[(#[trigger] edges@[kk]) as int]@) by {}
                    }
                },
            }
            k = k + 1;
        }
        let ghost adj0 = adj@;
        adj.push(edges);
        proof {
            assert(row@.subrange(0, m as int) =~= row@);
            assert forall|p: int, j: int|
                0 <= p < i + 1 && 0 <= j < names@.len() implies ((exists|kk: int|
                    0 <= kk < adj@[p]@.len() && #[trigger] adj@[p]@[kk] == j) <==> names_set(
                    deps@[p]@,
                ).contains(names@[j]@)) by {
                if p < i {
                    assert(adj@[p] == adj0[p]);
                    if names_set(deps@[p]@).contains(names@[j]@) {
                        let kk = choose|kk: int|
                            0 <= kk < adj0[p]@.len() && #[trigger] adj0[p]@[kk] == j;
                        assert(adj@[p]@[kk] == j);
                    }
                } else {
                    assert(adj@[p] == edges);
                }
            }
        }
        i = i + 1;
    }
    proof {
        assert(wf_graph(adj@));
        assert forall|i2: int, j: int|
            0 <= i2 < adj@.len() && 0 <= j < names@.len() implies (#[trigger] edge(adj@, i2, j)
                <==> names_set(deps@[i2]@).contains(names@[j]@)) by {
            if edge(adj@, i2, j) {
                let k = choose|k: int|
                    0 <= k < adj@[i2]@.len() && #[trigger] adj@[i2]@[k] as int == j;
                assert(adj@[i2]@[k] == j);
            }
            if names_set(deps@[i2]@).contains(names@[j]@) {
                let kk = choose|kk: int|
                    0 <= kk < adj@[i2]@.len() && #[trigger] adj@[i2]@[kk] == j;
                assert(adj@[i2]@[kk] as int == j);
            }
        }
    }
    adj
}

/// The position of a node in an order.
pub open spec fn order_pos(order: Seq<usize>, v: int) -> int {
    choose|q: int| 0 <= q < order.len() && order[q] == v as usize
}

/// A topologically sorted total order excludes dependency cycles.
#[verifier::rlimit(100)]
#[verifier::spinoff_prover]
proof fn lemma_topo_no_cycle(adj: Seq<Vec<usize>>, order: Seq<usize>, cyc: Seq<int>)
    requires
        adj.len() <= usize::MAX,
        wf_graph(adj),
        crate::lrfrp_ir::tsort::is_permutation(adj.len(), order),
        crate::lrfrp_ir::tsort::topo_sorted(adj, order),
    ensures
        !crate::lrfrp_ir::tsort::is_cycle(adj, cyc),
{
    if !crate::lrfrp_ir::tsort::is_cycle(adj, cyc) {
        return;
    }
    let len = cyc.len() as int;
    assert forall|k: int|
        #![trigger cyc[k]]
        0 <= k < len implies order_pos(order, cyc[(k + 1) % len]) < order_pos(
        order,
        cyc[k],
    ) by {
        assert(edge(adj, cyc[k], cyc[(k + 1) % len]));
        lemma_edge_pos(adj, order, cyc[k], cyc[(k + 1) % len]);
    }
    lemma_pos_descent(adj, order, cyc, (len - 1) as nat);
    // the wrap-around edge closes the strictly decreasing chain
    assert(order_pos(order, cyc[(len - 1 + 1) % len]) < order_pos(order, cyc[len - 1]));
    assert((len - 1 + 1) % len == 0) by {
        assert(len % len == 0);
    }
    assert(order_pos(order, cyc[0]) < order_pos(order, cyc[len - 1]));
    assert(order_pos(order, cyc[len - 1]) <= order_pos(order, cyc[0]) - (len - 1));
    assert(false);
}

/// A dependency edge points strictly backwards in a topological order.
#[verifier::rlimit(100)]
#[verifier::spinoff_prover]
proof fn lemma_edge_pos(adj: Seq<Vec<usize>>, order: Seq<usize>, a: int, b: int)
    requires
        adj.len() <= usize::MAX,
        wf_graph(adj),
        crate::lrfrp_ir::tsort::is_permutation(adj.len(), order),
        crate::lrfrp_ir::tsort::topo_sorted(adj, order),
        edge(adj, a, b),
        0 <= b < adj.len(),
    ensures
        order_pos(order, b) < order_pos(order, a),
{
    assert(order.contains(a as usize));
    assert(order.contains(b as usize));
    let p = order_pos(order, a);
    assert(0 <= p < order.len() && order[p] == a as usize) by {
        let q0 = choose|q: int| 0 <= q < order.len() && order[q] == a as usize;
    }
    let kk = choose|kk: int| 0 <= kk < adj[a]@.len() && #[trigger] adj[a]@[kk] as int == b;
    assert(adj[order[p] as int]@[kk] as int == b);
    assert(crate::lrfrp_ir::tsort::appears_before(order, p, adj[order[p] as int]@[kk]));
    let q = choose|q: int| 0 <= q < p && #[trigger] order[q] == adj[order[p] as int]@[kk];
    assert(order[q] == b as usize);
    let qq = order_pos(order, b);
    assert(0 <= qq < order.len() && order[qq] == b as usize) by {
        let q1 = choose|q1: int| 0 <= q1 < order.len() && order[q1] == b as usize;
    }
    assert(q == qq);
}

/// Along a cycle the position strictly decreases with every step.
proof fn lemma_pos_descent(adj: Seq<Vec<usize>>, order: Seq<usize>, cyc: Seq<int>, k: nat)
    requires
        adj.len() <= usize::MAX,
        wf_graph(adj),
        crate::lrfrp_ir::tsort::is_permutation(adj.len(), order),
        crate::lrfrp_ir::tsort::topo_sorted(adj, order),
        crate::lrfrp_ir::tsort::is_cycle(adj, cyc),
        k < cyc.len(),
        forall|j: int|
            0 <= j < cyc.len() ==> order_pos(order, cyc[(j + 1) % (cyc.len() as int)])
                < order_pos(order, #[trigger] cyc[j]),
    ensures
        order_pos(order, cyc[k as int]) <= order_pos(order, cyc[0]) - k,
    decreases k,
{
    let len = cyc.len() as int;
    if k > 0 {
        lemma_pos_descent(adj, order, cyc, (k - 1) as nat);
        assert(order_pos(order, cyc[(k - 1 + 1) % len]) < order_pos(order, cyc[k - 1]));
        assert((k - 1 + 1) % len == k as int % len);
        assert(k as int % len == k as int) by {
            vstd::arithmetic::div_mod::lemma_small_mod(k, cyc.len());
        }
    }
}

/// Facts about the combinational slice of the equation list.
proof fn lemma_comb_of_facts(ss: Seq<ItemFrpStmt>)
    ensures
        forall|k: int|
            #![trigger comb_of(ss)[k]]
            0 <= k < comb_of(ss).len() ==> exists|i: int|
                0 <= i < ss.len() && #[trigger] ss[i] == ItemFrpStmt::Dependency(comb_of(ss)[k]),
        forall|n: Seq<char>|
            #[trigger] is_comb_name(ss, n) <==> exists|k: int|
                0 <= k < comb_of(ss).len() && #[trigger] comb_of(ss)[k].path@ == n,
        distinct_names(stmts_names(ss)) ==> forall|k1: int, k2: int|
            #![trigger comb_of(ss)[k1], comb_of(ss)[k2]]
            0 <= k1 < k2 < comb_of(ss).len() ==> comb_of(ss)[k1].path@ != comb_of(ss)[k2].path@,
    decreases ss,
{
    if ss.len() == 0 {
    } else {
        let pre = ss.drop_last();
        lemma_comb_of_facts(pre);
        let cs = comb_of(ss);
        let cp = comb_of(pre);
        assert forall|k: int| #![trigger cs[k]] 0 <= k < cs.len() implies exists|i: int|
            0 <= i < ss.len() && #[trigger] ss[i] == ItemFrpStmt::Dependency(cs[k]) by {
            if k < cp.len() {
                assert(cp[k] == cs[k]);
                let i = choose|i: int|
                    0 <= i < pre.len() && #[trigger] pre[i] == ItemFrpStmt::Dependency(cp[k]);
                assert(ss[i] == ItemFrpStmt::Dependency(cs[k]));
            } else {
                match ss.last() {
                    ItemFrpStmt::Dependency(d) => {
                        assert(ss[ss.len() - 1] == ItemFrpStmt::Dependency(cs[k]));
                    },
                    ItemFrpStmt::Arrow(_) => {
                        assert(false);
                    },
                }
            }
        }
        assert forall|n: Seq<char>| #[trigger] is_comb_name(ss, n) implies exists|k: int|
            0 <= k < cs.len() && #[trigger] cs[k].path@ == n by {
            let i = choose|i: int|
                0 <= i < ss.len() && (#[trigger] ss[i] matches ItemFrpStmt::Dependency(d)
                    && d.path@ == n);
            if i < ss.len() - 1 {
                assert(pre[i] == ss[i]);
                assert(is_comb_name(pre, n));
                let k = choose|k: int| 0 <= k < cp.len() && #[trigger] cp[k].path@ == n;
                assert(cs[k].path@ == n);
            } else {
                match ss.last() {
                    ItemFrpStmt::Dependency(d) => {
                        assert(cs[cs.len() - 1].path@ == n);
                    },
                    ItemFrpStmt::Arrow(_) => {},
                }
            }
        }
        assert forall|n: Seq<char>|
            (exists|k: int| 0 <= k < cs.len() && #[trigger] cs[k].path@ == n) implies
            is_comb_name(ss, n) by {
            let k = choose|k: int| 0 <= k < cs.len() && #[trigger] cs[k].path@ == n;
            let i = choose|i: int|
                0 <= i < ss.len() && #[trigger] ss[i] == ItemFrpStmt::Dependency(cs[k]);
        }
        if distinct_names(stmts_names(ss)) {
            assert forall|i: int, j: int| 0 <= i < j < pre.len() implies stmts_names(pre)[i]
                != stmts_names(pre)[j] by {
                assert(stmts_names(ss)[i] == stmts_names(pre)[i]);
                assert(stmts_names(ss)[j] == stmts_names(pre)[j]);
            }
            assert forall|k1: int, k2: int|
                #![trigger cs[k1], cs[k2]]
                0 <= k1 < k2 < cs.len() implies cs[k1].path@ != cs[k2].path@ by {
                if k2 < cp.len() {
                    assert(cp[k1] == cs[k1] && cp[k2] == cs[k2]);
                } else {
                    // k2 names the final statement; k1 names an earlier one
                    let i = choose|i: int|
                        0 <= i < pre.len() && #[trigger] pre[i] == ItemFrpStmt::Dependency(
                            cp[k1],
                        );
                    assert(stmts_names(ss)[i] == cs[k1].path@);
                    assert(stmts_names(ss)[ss.len() - 1] == cs[k2].path@);
                }
            }
        }
    }
}

/// Facts about the register slice of the equation list.
proof fn lemma_arrows_of_facts(ss: Seq<ItemFrpStmt>)
    ensures
        forall|k: int|
            #![trigger arrows_of(ss)[k]]
            0 <= k < arrows_of(ss).len() ==> exists|i: int|
                0 <= i < ss.len() && #[trigger] ss[i] == ItemFrpStmt::Arrow(arrows_of(ss)[k]),
        forall|n: Seq<char>|
            #[trigger] is_arrow_name(ss, n) <==> exists|k: int|
                0 <= k < arrows_of(ss).len() && #[trigger] arrows_of(ss)[k].path@ == n,
        distinct_names(stmts_names(ss)) ==> forall|k1: int, k2: int|
            #![trigger arrows_of(ss)[k1], arrows_of(ss)[k2]]
            0 <= k1 < k2 < arrows_of(ss).len() ==> arrows_of(ss)[k1].path@ != arrows_of(
                ss,
            )[k2].path@,
    decreases ss,
{
    if ss.len() == 0 {
    } else {
        let pre = ss.drop_last();
        lemma_arrows_of_facts(pre);
        let cs = arrows_of(ss);
        let cp = arrows_of(pre);
        assert forall|k: int| #![trigger cs[k]] 0 <= k < cs.len() implies exists|i: int|
            0 <= i < ss.len() && #[trigger] ss[i] == ItemFrpStmt::Arrow(cs[k]) by {
            if k < cp.len() {
                assert(cp[k] == cs[k]);
                let i = choose|i: int|
                    0 <= i < pre.len() && #[trigger] pre[i] == ItemFrpStmt::Arrow(cp[k]);
                assert(ss[i] == ItemFrpStmt::Arrow(cs[k]));
            } else {
                match ss.last() {
                    ItemFrpStmt::Arrow(a) => {
                        assert(ss[ss.len() - 1] == ItemFrpStmt::Arrow(cs[k]));
                    },
                    ItemFrpStmt::Dependency(_) => {
                        assert(false);
                    },
                }
            }
        }
        assert forall|n: Seq<char>| #[trigger] is_arrow_name(ss, n) implies exists|k: int|
            0 <= k < cs.len() && #[trigger] cs[k].path@ == n by {
            let i = choose|i: int|
                0 <= i < ss.len() && (#[trigger] ss[i] matches ItemFrpStmt::Arrow(a) && a.path@
                    == n);
            if i < ss.len() - 1 {
                assert(pre[i] == ss[i]);
                assert(is_arrow_name(pre, n));
                let k = choose|k: int| 0 <= k < cp.len() && #[trigger] cp[k].path@ == n;
                assert(cs[k].path@ == n);
            } else {
                match ss.last() {
                    ItemFrpStmt::Arrow(a) => {
                        assert(cs[cs.len() - 1].path@ == n);
                    },
                    ItemFrpStmt::Dependency(_) => {},
                }
            }
        }
        assert forall|n: Seq<char>|
            (exists|k: int| 0 <= k < cs.len() && #[trigger] cs[k].path@ == n) implies
            is_arrow_name(ss, n) by {
            let k = choose|k: int| 0 <= k < cs.len() && #[trigger] cs[k].path@ == n;
            let i = choose|i: int|
                0 <= i < ss.len() && #[trigger] ss[i] == ItemFrpStmt::Arrow(cs[k]);
        }
        if distinct_names(stmts_names(ss)) {
            assert forall|i: int, j: int| 0 <= i < j < pre.len() implies stmts_names(pre)[i]
                != stmts_names(pre)[j] by {
                assert(stmts_names(ss)[i] == stmts_names(pre)[i]);
                assert(stmts_names(ss)[j] == stmts_names(pre)[j]);
            }
            assert forall|k1: int, k2: int|
                #![trigger cs[k1], cs[k2]]
                0 <= k1 < k2 < cs.len() implies cs[k1].path@ != cs[k2].path@ by {
                if k2 < cp.len() {
                    assert(cp[k1] == cs[k1] && cp[k2] == cs[k2]);
                } else {
                    let i = choose|i: int|
                        0 <= i < pre.len() && #[trigger] pre[i] == ItemFrpStmt::Arrow(cp[k1]);
                    assert(stmts_names(ss)[i] == cs[k1].path@);
                    assert(stmts_names(ss)[ss.len() - 1] == cs[k2].path@);
                }
            }
        }
    }
}

/// A read set is clean against the symbol table exactly when it is
/// clean in the syntactic sense.
proof fn lemma_clean_transfer<'a>(
    env: VarEnv<'a>,
    input: &'a ItemIn,
    output: &'a ItemOut,
    args: &'a Option<ItemArgs>,
    ds: &'a Vec<ItemDeclaration>,
    ss: &'a Vec<ItemFrpStmt>,
    reads: Set<Seq<char>>,
    forbid: bool,
)
    requires
        env_build_ok(*input, *output, *args, ds@, ss@),
        env_describes(env, *input, *output, *args, ds@, ss@),
    ensures
        crate::lrfrp_ir::deps_trailer::reads_clean(reads, env.as_map(), forbid) <==> clean_syn(
            *input,
            *output,
            *args,
            ds@,
            ss@,
            reads,
            forbid,
        ),
{
    let m = env.as_map();
    if !crate::lrfrp_ir::deps_trailer::reads_clean(reads, m, forbid) {
        // a bad read refutes the syntactic cleanliness too
        if !crate::lrfrp_ir::deps_trailer::undef_of(reads, m).is_empty() {
            let n = crate::lrfrp_ir::deps_trailer::undef_of(reads, m).choose();
            assert(crate::lrfrp_ir::deps_trailer::undef_of(reads, m).contains(n));
            assert(reads.contains(n) && !m.dom().contains(n));
            assert(!clean_syn(*input, *output, *args, ds@, ss@, reads, forbid));
        } else {
            assert(forbid && !crate::lrfrp_ir::deps_trailer::lifted_of(reads, m).is_empty());
            let n = crate::lrfrp_ir::deps_trailer::lifted_of(reads, m).choose();
            assert(crate::lrfrp_ir::deps_trailer::lifted_of(reads, m).contains(n));
            assert(reads.contains(n) && m.dom().contains(n) && m[n] is Lifted);
            if name_mono(*output, *args, ds@, n) {
                if is_args_name(*args, n) {
                    match *args {
                        Some(a) => {
                            let i = choose|i: int|
                                0 <= i < a.fields@.len() && #[trigger] a.fields@[i].ident@ == n;
                            assert(false);
                        },
                        None => {},
                    }
                } else {
                    let i = choose|i: int|
                        0 <= i < ds@.len() && (#[trigger] ds@[i] matches ItemDeclaration::Fn(f)
                            && f.ident@ == n);
                    assert(false);
                }
            }
            assert(!clean_syn(*input, *output, *args, ds@, ss@, reads, forbid));
        }
        return;
    }
    assert forall|n: Seq<char>| #[trigger] reads.contains(n) implies (name_declared(
        *input,
        *args,
        ds@,
        ss@,
        n,
    ) && (forbid ==> name_mono(*output, *args, ds@, n))) by {
        assert(!crate::lrfrp_ir::deps_trailer::undef_of(reads, m).contains(n));
        assert(m.dom().contains(n));
        if forbid {
            assert(!crate::lrfrp_ir::deps_trailer::lifted_of(reads, m).contains(n));
            assert(!(m[n] is Lifted));
            match m[n] {
                Type::Mono(TypeMono::Args(_)) => {
                    lemma_shape_is_args(env, input, output, args, ds, ss, n);
                },
                Type::Mono(TypeMono::Type(_)) => {
                    lemma_shape_is_fn(env, input, output, args, ds, ss, n);
                },
                Type::Lifted(_) => {
                    assert(false);
                },
            }
        }
    }
}

/// A plain-value category comes from the argument section.
proof fn lemma_shape_is_args<'a>(
    env: VarEnv<'a>,
    input: &'a ItemIn,
    output: &'a ItemOut,
    args: &'a Option<ItemArgs>,
    ds: &'a Vec<ItemDeclaration>,
    ss: &'a Vec<ItemFrpStmt>,
    n: Seq<char>,
)
    requires
        env_describes(env, *input, *output, *args, ds@, ss@),
        env.as_map().dom().contains(n),
        env.as_map()[n] matches Type::Mono(TypeMono::Args(_)),
    ensures
        is_args_name(*args, n),
{
    let m = env.as_map();
    if !is_args_name(*args, n) {
        if is_field_name(input.fields@, n) {
            let i = choose|i: int|
                0 <= i < input.fields@.len() && #[trigger] input.fields@[i].ident@ == n;
            assert(false);
        } else if is_comb_name(ss@, n) {
            let i = choose|i: int|
                0 <= i < ss@.len() && (#[trigger] ss@[i] matches ItemFrpStmt::Dependency(d)
                    && d.path@ == n);
            assert(false);
        } else if is_arrow_name(ss@, n) {
            let i = choose|i: int|
                0 <= i < ss@.len() && (#[trigger] ss@[i] matches ItemFrpStmt::Arrow(a)
                    && a.path@ == n);
            assert(false);
        } else {
            assert(is_fn_name(ds@, n));
            let i = choose|i: int|
                0 <= i < ds@.len() && (#[trigger] ds@[i] matches ItemDeclaration::Fn(f)
                    && f.ident@ == n);
            assert(false);
        }
    }
}

/// A resolved plain type comes from a helper function that no output
/// reclassified.
proof fn lemma_shape_is_fn<'a>(
    env: VarEnv<'a>,
    input: &'a ItemIn,
    output: &'a ItemOut,
    args: &'a Option<ItemArgs>,
    ds: &'a Vec<ItemDeclaration>,
    ss: &'a Vec<ItemFrpStmt>,
    n: Seq<char>,
)
    requires
        env_describes(env, *input, *output, *args, ds@, ss@),
        env.as_map().dom().contains(n),
        env.as_map()[n] matches Type::Mono(TypeMono::Type(_)),
    ensures
        is_fn_name(ds@, n),
        !is_field_name(output.fields@, n),
{
    let m = env.as_map();
    if is_args_name(*args, n) {
        match *args {
            Some(a) => {
                let i = choose|i: int|
                    0 <= i < a.fields@.len() && #[trigger] a.fields@[i].ident@ == n;
                assert(false);
            },
            None => {},
        }
    } else if is_field_name(input.fields@, n) {
        let i = choose|i: int|
            0 <= i < input.fields@.len() && #[trigger] input.fields@[i].ident@ == n;
        assert(false);
    } else if is_comb_name(ss@, n) {
        let i = choose|i: int|
            0 <= i < ss@.len() && (#[trigger] ss@[i] matches ItemFrpStmt::Dependency(d)
                && d.path@ == n);
        assert(false);
    } else if is_arrow_name(ss@, n) {
        let i = choose|i: int|
            0 <= i < ss@.len() && (#[trigger] ss@[i] matches ItemFrpStmt::Arrow(a) && a.path@
                == n);
        assert(false);
    } else {
        assert(is_fn_name(ds@, n));
        let i = choose|i: int|
            0 <= i < ds@.len() && (#[trigger] ds@[i] matches ItemDeclaration::Fn(f) && f.ident@
                == n);
        if is_field_name(output.fields@, n) {
            assert(false);
        }
    }
}

/// `p` maps the positions of `dst` onto distinct positions of `src`.
pub open spec fn is_reorder<T>(p: Seq<int>, dst: Seq<T>, src: Seq<T>) -> bool {
    &&& p.len() == src.len()
    &&& dst.len() == src.len()
    &&& forall|k: int| 0 <= k < p.len() ==> 0 <= #[trigger] p[k] < src.len()
    &&& forall|k1: int, k2: int| 0 <= k1 < k2 < p.len() ==> p[k1] != p[k2]
    &&& forall|k: int| 0 <= k < p.len() ==> #[trigger] dst[k] == src[p[k]]
}

/// The name `n` is defined by one of the first `k` combinational
/// equations of the plan.
pub open spec fn dep_before(deps: Seq<FrpStmtDependency>, k: int, n: Seq<char>) -> bool {
    exists|q: int| 0 <= q < k && #[trigger] deps[q].path@ == n
}

/// The name `n` is defined by one of the first `k` registers of the plan.
pub open spec fn arrow_before(ars: Seq<FrpStmtArrow>, k: int, n: Seq<char>) -> bool {
    exists|q: int| 0 <= q < k && #[trigger] ars[q].path@ == n
}

/// The compiled evaluation plan: the combinational equations in a safe
/// evaluation order, and the registers in a safe update order.
#[derive(Debug, PartialEq)]
pub struct OrderedStmts {
    pub dependencies: Vec<FrpStmtDependency>,
    pub arrows: Vec<FrpStmtArrow>,
}

impl OrderedStmts {
    /// The combinational equations, dependencies first.
    pub fn calculations(&self) -> (r: &Vec<FrpStmtDependency>)
        ensures
            r == &self.dependencies,
    {
        &self.dependencies
    }

    /// The register update equations in their commit order; the runtime
    /// stages all new values before writing any.
    pub fn cell_updates(&self) -> (r: &Vec<FrpStmtArrow>)
        ensures
            r == &self.arrows,
    {
        &self.arrows
    }

    /// The register definitions: each name with its declared type.
    pub fn cell_definition(&self) -> (r: Vec<(&String, &crate::ast::types::Type)>)
        ensures
            r@.len() == self.arrows@.len(),
            forall|k: int|
                0 <= k < r@.len() ==> #[trigger] r@[k] == (
                    &self.arrows@[k].path,
                    &self.arrows@[k].ty,
                ),
    {
        let mut r: Vec<(&String, &crate::ast::types::Type)> = Vec::new();
        let n = self.arrows.len();
        let mut i: usize = 0;
        while i < n
            invariant
                n == self.arrows@.len(),
                i <= n,
                r@.len() == i,
                forall|k: int|
                    0 <= k < i ==> #[trigger] r@[k] == (
                        &self.arrows@[k].path,
                        &self.arrows@[k].ty,
                    ),
            decreases n - i,
        {
            let a = &self.arrows[i];
            r.push((&a.path, &a.ty));
            i = i + 1;
        }
        r
    }

    /// The register initializers, evaluated against the arguments alone.
    pub fn cell_initializations(&self) -> (r: Vec<(&String, &Expr)>)
        ensures
            r@.len() == self.arrows@.len(),
            forall|k: int|
                0 <= k < r@.len() ==> #[trigger] r@[k] == (
                    &self.arrows@[k].path,
                    &*self.arrows@[k].arrow_expr.expr,
                ),
    {
        let mut r: Vec<(&String, &Expr)> = Vec::new();
        let n = self.arrows.len();
        let mut i: usize = 0;
        while i < n
            invariant
                n == self.arrows@.len(),
                i <= n,
                r@.len() == i,
                forall|k: int|
                    0 <= k < i ==> #[trigger] r@[k] == (
                        &self.arrows@[k].path,
                        &*self.arrows@[k].arrow_expr.expr,
                    ),
            decreases n - i,
        {
            let a = &self.arrows[i];
            r.push((&a.path, &a.arrow_expr.expr));
            i = i + 1;
        }
        r
    }
}

/// What an accepted plan guarantees: it holds exactly the program's
/// equations, every combinational equation stands after all the
/// combinational equations it reads, and every register update stands
/// after all the register names it reads.
pub open spec fn plan_post(os: OrderedStmts, ss: Seq<ItemFrpStmt>) -> bool {
    &&& exists|p: Seq<int>| #[trigger] is_reorder(p, os.dependencies@, comb_of(ss))
    &&& exists|p: Seq<int>| #[trigger] is_reorder(p, os.arrows@, arrows_of(ss))
    &&& forall|k: int, n: Seq<char>|
        #![trigger free_reads(os.dependencies@[k].expr, Set::empty()).contains(n)]
        0 <= k < os.dependencies@.len() && free_reads(
            os.dependencies@[k].expr,
            Set::empty(),
        ).contains(n) && is_comb_name(ss, n) ==> dep_before(os.dependencies@, k, n)
    &&& forall|k: int, n: Seq<char>|
        #![trigger free_reads(os.arrows@[k].expr, Set::empty()).contains(n)]
        0 <= k < os.arrows@.len() && free_reads(os.arrows@[k].expr, Set::empty()).contains(n)
            && is_arrow_name(ss, n) ==> arrow_before(os.arrows@, k, n)
}

/// When the whole semantic analysis succeeds: the symbol table builds,
/// every expression reads only legal names, and both dependency graphs
/// are acyclic.
pub open spec fn deps_check_ok(
    input: ItemIn,
    output: ItemOut,
    args: Option<ItemArgs>,
    ds: Seq<ItemDeclaration>,
    ss: Seq<ItemFrpStmt>,
) -> bool {
    &&& env_build_ok(input, output, args, ds, ss)
    &&& all_clean(input, output, args, ds, ss)
    &&& !comb_cycle(ss)
    &&& !arrow_cycle(ss)
}

/// Split the equations into combinational and register halves, in
/// source order.
fn partition_stmts(stmts: Vec<ItemFrpStmt>) -> (r: (Vec<FrpStmtDependency>, Vec<FrpStmtArrow>))
    ensures
        r.0@ == comb_of(stmts@),
        r.1@ == arrows_of(stmts@),
{
    let ghost orig = stmts@;
    let mut rest = stmts;
    let mut comb_rev: Vec<FrpStmtDependency> = Vec::new();
    let mut arrow_rev: Vec<FrpStmtArrow> = Vec::new();
    while rest.len() > 0
        invariant
            comb_of(orig) == comb_of(rest@) + comb_rev@.reverse(),
            arrows_of(orig) == arrows_of(rest@) + arrow_rev@.reverse(),
        decreases rest@.len(),
    {
        let ghost pre = rest@;
        let s = match rest.pop() {
            Some(s) => s,
            None => {
                proof {
                    assert(false);
                }
                unreached()
            },
        };
        proof {
            assert(rest@ =~= pre.drop_last());
            assert(pre.last() == s);
        }
        match s {
            ItemFrpStmt::Dependency(d) => {
                let ghost cr = comb_rev@;
                comb_rev.push(d);
                proof {
                    assert(comb_of(pre) =~= comb_of(rest@) + seq![d]);
                    assert(comb_rev@.reverse() =~= seq![d] + cr.reverse());
                    assert(comb_of(rest@) + comb_rev@.reverse() =~= comb_of(pre)
                        + cr.reverse());
                    assert(arrows_of(pre) =~= arrows_of(rest@));
                }
            },
            ItemFrpStmt::Arrow(a) => {
                let ghost ar = arrow_rev@;
                arrow_rev.push(a);
                proof {
                    assert(arrows_of(pre) =~= arrows_of(rest@) + seq![a]);
                    assert(arrow_rev@.reverse() =~= seq![a] + ar.reverse());
                    assert(arrows_of(rest@) + arrow_rev@.reverse() =~= arrows_of(pre)
                        + ar.reverse());
                    assert(comb_of(pre) =~= comb_of(rest@));
                }
            },
        }
    }
    proof {
        assert(comb_of(rest@) =~= Seq::<FrpStmtDependency>::empty());
        assert(arrows_of(rest@) =~= Seq::<FrpStmtArrow>::empty());
        assert(comb_of(orig) =~= comb_rev@.reverse());
        assert(arrows_of(orig) =~= arrow_rev@.reverse());
    }
    let mut comb: Vec<FrpStmtDependency> = Vec::new();
    while comb_rev.len() > 0
        invariant
            comb_of(orig) == comb@ + comb_rev@.reverse(),
        decreases comb_rev@.len(),
    {
        let ghost pre = comb_rev@;
        let d = match comb_rev.pop() {
            Some(d) => d,
            None => {
                proof {
                    assert(false);
                }
                unreached()
            },
        };
        comb.push(d);
        proof {
            assert(pre.reverse()[0] == d);
            assert(comb_rev@.reverse() =~= pre.reverse().drop_first());
            assert(comb@ + comb_rev@.reverse() =~= comb_of(orig));
        }
    }
    let mut arrows: Vec<FrpStmtArrow> = Vec::new();
    while arrow_rev.len() > 0
        invariant
            arrows_of(orig) == arrows@ + arrow_rev@.reverse(),
        decreases arrow_rev@.len(),
    {
        let ghost pre = arrow_rev@;
        let a = match arrow_rev.pop() {
            Some(a) => a,
            None => {
                proof {
                    assert(false);
                }
                unreached()
            },
        };
        arrows.push(a);
        proof {
            assert(pre.reverse()[0] == a);
            assert(arrow_rev@.reverse() =~= pre.reverse().drop_first());
            assert(arrows@ + arrow_rev@.reverse() =~= arrows_of(orig));
        }
    }
    proof {
        assert(comb@ =~= comb_of(orig));
        assert(arrows@ =~= arrows_of(orig));
    }
    (comb, arrows)
}

/// Rearrange a list into the given order.
fn reorder<T>(src: Vec<T>, order: &Vec<usize>) -> (r: Vec<T>)
    requires
        crate::lrfrp_ir::tsort::is_permutation(src@.len(), order@),
    ensures
        r@.len() == src@.len(),
        forall|k: int| 0 <= k < r@.len() ==> #[trigger] r@[k] == src@[order@[k] as int],
{
    let ghost orig = src@;
    let n = src.len();
    let mut rest = src;
    let mut slots_rev: Vec<Option<T>> = Vec::new();
    while rest.len() > 0
        invariant
            rest@.len() + slots_rev@.len() == orig.len(),
            rest@ == orig.subrange(0, rest@.len() as int),
            forall|k: int|
                0 <= k < slots_rev@.len() ==> #[trigger] slots_rev@[k] == Some(
                    orig[orig.len() - 1 - k],
                ),
        decreases rest@.len(),
    {
        let ghost pre = rest@;
        let x = match rest.pop() {
            Some(x) => x,
            None => {
                proof {
                    assert(false);
                }
                unreached()
            },
        };
        slots_rev.push(Some(x));
        proof {
            assert(rest@ =~= orig.subrange(0, rest@.len() as int));
        }
    }
    let mut slots: Vec<Option<T>> = Vec::new();
    while slots_rev.len() > 0
        invariant
            slots@.len() + slots_rev@.len() == orig.len(),
            forall|k: int|
                0 <= k < slots_rev@.len() ==> #[trigger] slots_rev@[k] == Some(
                    orig[orig.len() - 1 - k],
                ),
            forall|k: int| 0 <= k < slots@.len() ==> #[trigger] slots@[k] == Some(orig[k]),
        decreases slots_rev@.len(),
    {
        let x = match slots_rev.pop() {
            Some(x) => x,
            None => {
                proof {
                    assert(false);
                }
                unreached()
            },
        };
        slots.push(x);
    }
    let mut out: Vec<T> = Vec::new();
    let mut k: usize = 0;
    while k < n
        invariant
            n == orig.len(),
            crate::lrfrp_ir::tsort::is_permutation(orig.len(), order@),
            k <= n,
            slots@.len() == n,
            out@.len() == k,
            forall|q: int| 0 <= q < k ==> #[trigger] out@[q] == orig[order@[q] as int],
            forall|j: int|
                0 <= j < n && (forall|q: int| 0 <= q < k ==> order@[q] != j) ==> #[trigger] slots@[j]
                    == Some(orig[j]),
        decreases n - k,
    {
        let idx = order[k];
        proof {
            assert(order@[k as int] == idx);
            assert((idx as int) < n);
            assert forall|q: int| 0 <= q < k implies order@[q] != idx as int by {
                assert(order@[q] != order@[k as int]);
            }
            assert(slots@[idx as int] == Some(orig[idx as int]));
        }
        let taken = slots[idx].take();
        let x = match taken {
            Some(x) => x,
            None => {
                proof {
                    assert(false);
                }
                unreached()
            },
        };
        out.push(x);
        proof {
            assert forall|j: int|
                0 <= j < n && (forall|q: int| 0 <= q < k + 1 ==> order@[q] != j) implies
                #[trigger] slots@[j] == Some(orig[j]) by {
                assert(j != idx as int);
            }
        }
        k = k + 1;
    }
    out
}

/// The whole semantic analysis: build the symbol table, extract and
/// validate every expression's dependencies, sort both graphs, and
/// assemble the evaluation plan.  Succeeds exactly when every name is
/// declared once, every read is legal, and both graphs are acyclic.
#[verifier::rlimit(100)]
pub fn deps_check(
    input: &ItemIn,
    output: &ItemOut,
    args: &Option<ItemArgs>,
    declarations: &Vec<ItemDeclaration>,
    frp_stmts: Vec<ItemFrpStmt>,
) -> (r: Result<OrderedStmts, Vec<Error>>)
    requires
        decls_supported(declarations@),
    ensures
        r matches Ok(os) ==> deps_check_ok(*input, *output, *args, declarations@, frp_stmts@)
            && plan_post(os, frp_stmts@),
        r matches Err(es) ==> !deps_check_ok(*input, *output, *args, declarations@, frp_stmts@)
            && es@.len() > 0 && deps_err(es@, *input, *output, *args, declarations@, frp_stmts@),
{
    let ghost ss = frp_stmts@;
    let ghost ds = declarations@;
    let ghost cs = comb_of(ss);
    let ghost ars = arrows_of(ss);
    {
        let env = match collect_global_idents(input, output, args, declarations, &frp_stmts) {
            Ok(env) => env,
            Err(e) => {
                let mut es: Vec<Error> = Vec::new();
                es.push(e);
                return Err(es);
            },
        };
        match extract_deps(&env, input, output, args, declarations, &frp_stmts) {
            Ok(o) => {
                let (comb_order, arrow_order, comb_adj, arrow_adj) = o;
                let os = generate_ordered_stmts(
                    frp_stmts,
                    &comb_order,
                    &arrow_order,
                    Ghost(comb_adj@),
                    Ghost(arrow_adj@),
                );
                Ok(os)
            },
            Err(es) => Err(es),
        }
    }
}

/// Validate every helper-function body: it may read constant-like names
/// only, so no temporal value can reach a register initializer through
/// a call.
fn check_declarations<'a, 'b>(
    env: &'b VarEnv<'a>,
    input: &'a ItemIn,
    output: &'a ItemOut,
    args: &'a Option<ItemArgs>,
    declarations: &'a Vec<ItemDeclaration>,
    frp_stmts: &'a Vec<ItemFrpStmt>,
) -> (r: Result<(), Vec<Error>>)
    requires
        decls_supported(declarations@),
        env.wf(),
        env_build_ok(*input, *output, *args, declarations@, frp_stmts@),
        env_describes(*env, *input, *output, *args, declarations@, frp_stmts@),
    ensures
        r matches Ok(_) ==> forall|i: int|
            0 <= i < declarations@.len() ==> (#[trigger] declarations@[i] matches
                ItemDeclaration::Fn(f) ==> clean_syn(
                *input,
                *output,
                *args,
                declarations@,
                frp_stmts@,
                fn_reads(f),
                true,
            )),
        r matches Err(es) ==> {
            &&& es@.len() > 0
            &&& only_extraction_errs(es@)
            &&& !all_clean(*input, *output, *args, declarations@, frp_stmts@)
        },
{
    let ghost ss = frp_stmts@;
    let ghost ds = declarations@;
    let extractor = DepExtractor::new(env);
    let n_f = declarations.len();
    let mut i: usize = 0;
    while i < n_f
        invariant
            decls_supported(ds),
            ds == declarations@,
            ss == frp_stmts@,
            n_f == ds.len(),
            i <= n_f,
            env.wf(),
            env_build_ok(*input, *output, *args, ds, ss),
            env_describes(*env, *input, *output, *args, ds, ss),
            extractor.global == env,
            forall|i2: int|
                0 <= i2 < i ==> (#[trigger] ds[i2] matches ItemDeclaration::Fn(f) ==> clean_syn(
                    *input,
                    *output,
                    *args,
                    ds,
                    ss,
                    fn_reads(f),
                    true,
                )),
        decreases n_f - i,
    {
        match &declarations[i] {
            ItemDeclaration::Fn(f) => {
                match extractor.extract_fn(f, true) {
                    Ok(_d) => {
                        proof {
                            lemma_clean_transfer(
                                *env,
                                input,
                                output,
                                args,
                                declarations,
                                frp_stmts,
                                fn_reads(*f),
                                true,
                            );
                        }
                    },
                    Err(es) => {
                        proof {
                            lemma_clean_transfer(
                                *env,
                                input,
                                output,
                                args,
                                declarations,
                                frp_stmts,
                                fn_reads(*f),
                                true,
                            );
                            assert(!all_clean(*input, *output, *args, ds, ss));
                        }
                        return Err(es);
                    },
                }
            },
            ItemDeclaration::Struct(_) => {
                proof {
                    assert(false);
                }
            },
            ItemDeclaration::Enum(_) => {
                proof {
                    assert(false);
                }
            },
        }
        i = i + 1;
    }
    Ok(())
}

/// Extract each equation's dependency reads: the initializer of every
/// register is checked against constant-like names, every other
/// expression against the whole table.
fn collect_stmt_deps<'a, 'b>(
    env: &'b VarEnv<'a>,
    input: &'a ItemIn,
    output: &'a ItemOut,
    args: &'a Option<ItemArgs>,
    declarations: &'a Vec<ItemDeclaration>,
    frp_stmts: &'a Vec<ItemFrpStmt>,
) -> (r: Result<(Vec<Vec<String>>, Vec<String>, Vec<Vec<String>>, Vec<String>), Vec<Error>>)
    requires
        decls_supported(declarations@),
        env.wf(),
        env_build_ok(*input, *output, *args, declarations@, frp_stmts@),
        env_describes(*env, *input, *output, *args, declarations@, frp_stmts@),
    ensures
        r matches Ok(o) ==> {
            let cs = comb_of(frp_stmts@);
            let ars = arrows_of(frp_stmts@);
            &&& o.0@.len() == cs.len()
            &&& o.1@.len() == cs.len()
            &&& o.2@.len() == ars.len()
            &&& o.3@.len() == ars.len()
            &&& forall|k: int| 0 <= k < cs.len() ==> #[trigger] o.1@[k]@ == cs[k].path@
            &&& forall|k: int|
                0 <= k < cs.len() ==> #[trigger] names_set(o.0@[k]@) == free_reads(
                    cs[k].expr,
                    Set::empty(),
                )
            &&& forall|k: int| 0 <= k < ars.len() ==> #[trigger] o.3@[k]@ == ars[k].path@
            &&& forall|k: int|
                0 <= k < ars.len() ==> #[trigger] names_set(o.2@[k]@) == free_reads(
                    ars[k].expr,
                    Set::empty(),
                )
            &&& forall|i2: int|
                0 <= i2 < frp_stmts@.len() ==> (#[trigger] frp_stmts@[i2] matches
                    ItemFrpStmt::Dependency(d) ==> clean_syn(
                    *input,
                    *output,
                    *args,
                    declarations@,
                    frp_stmts@,
                    free_reads(d.expr, Set::empty()),
                    false,
                ))
            &&& forall|i2: int|
                0 <= i2 < frp_stmts@.len() ==> (#[trigger] frp_stmts@[i2] matches
                    ItemFrpStmt::Arrow(a) ==> (clean_syn(
                    *input,
                    *output,
                    *args,
                    declarations@,
                    frp_stmts@,
                    free_reads(*a.arrow_expr.expr, Set::empty()),
                    true,
                ) && clean_syn(
                    *input,
                    *output,
                    *args,
                    declarations@,
                    frp_stmts@,
                    free_reads(a.expr, Set::empty()),
                    false,
                )))
        },
        r matches Err(es) ==> {
            &&& es@.len() > 0
            &&& only_extraction_errs(es@)
            &&& !all_clean(*input, *output, *args, declarations@, frp_stmts@)
        },
{
    let ghost ss = frp_stmts@;
    let ghost ds = declarations@;
    let ghost cs = comb_of(ss);
    let ghost ars = arrows_of(ss);
    let extractor = DepExtractor::new(env);
        // equation bodies: collect the dependencies of each
        let mut comb_deps: Vec<Vec<String>> = Vec::new();
        let mut comb_names: Vec<String> = Vec::new();
        let mut arrow_deps: Vec<Vec<String>> = Vec::new();
        let mut arrow_names: Vec<String> = Vec::new();
        let n_s = frp_stmts.len();
        proof {
            assert(ss.subrange(0, 0) =~= Seq::<ItemFrpStmt>::empty());
            assert(comb_of(ss.subrange(0, 0)) =~= Seq::<FrpStmtDependency>::empty());
            assert(arrows_of(ss.subrange(0, 0)) =~= Seq::<FrpStmtArrow>::empty());
            assert(cs.subrange(0, 0) =~= Seq::<FrpStmtDependency>::empty());
            assert(ars.subrange(0, 0) =~= Seq::<FrpStmtArrow>::empty());
        }
        let mut i: usize = 0;
        while i < n_s
            invariant
                decls_supported(ds),
                ds == declarations@,
                ss == frp_stmts@,
                cs == comb_of(ss),
                ars == arrows_of(ss),
                n_s == ss.len(),
                i <= n_s,
                env.wf(),
                env_build_ok(*input, *output, *args, ds, ss),
                env_describes(*env, *input, *output, *args, ds, ss),
                extractor.global == env,
                comb_deps@.len() == comb_of(ss.subrange(0, i as int)).len(),
                comb_names@.len() == comb_deps@.len(),
                arrow_deps@.len() == arrows_of(ss.subrange(0, i as int)).len(),
                arrow_names@.len() == arrow_deps@.len(),
                comb_of(ss.subrange(0, i as int)) == cs.subrange(0, comb_deps@.len() as int),
                arrows_of(ss.subrange(0, i as int)) == ars.subrange(
                    0,
                    arrow_deps@.len() as int,
                ),
                forall|k: int|
                    0 <= k < comb_deps@.len() ==> #[trigger] comb_names@[k]@ == cs[k].path@,
                forall|k: int|
                    0 <= k < comb_deps@.len() ==> #[trigger] names_set(comb_deps@[k]@)
                        == free_reads(cs[k].expr, Set::empty()),
                forall|k: int|
                    0 <= k < arrow_deps@.len() ==> #[trigger] arrow_names@[k]@ == ars[k].path@,
                forall|k: int|
                    0 <= k < arrow_deps@.len() ==> #[trigger] names_set(arrow_deps@[k]@)
                        == free_reads(ars[k].expr, Set::empty()),
                forall|i2: int|
                    0 <= i2 < i ==> (#[trigger] ss[i2] matches ItemFrpStmt::Dependency(d)
                        ==> clean_syn(
                        *input,
                        *output,
                        *args,
                        ds,
                        ss,
                        free_reads(d.expr, Set::empty()),
                        false,
                    )),
                forall|i2: int|
                    0 <= i2 < i ==> (#[trigger] ss[i2] matches ItemFrpStmt::Arrow(a)
                        ==> (clean_syn(
                        *input,
                        *output,
                        *args,
                        ds,
                        ss,
                        free_reads(*a.arrow_expr.expr, Set::empty()),
                        true,
                    ) && clean_syn(
                        *input,
                        *output,
                        *args,
                        ds,
                        ss,
                        free_reads(a.expr, Set::empty()),
                        false,
                    ))),
            decreases n_s - i,
        {
            let ghost pre = ss.subrange(0, i as int);
            let ghost cur = ss.subrange(0, (i + 1) as int);
            proof {
                assert(cur.drop_last() =~= pre);
                assert(cur.last() == ss[i as int]);
            }
            match &frp_stmts[i] {
                ItemFrpStmt::Dependency(d) => {
                    proof {
                        lemma_comb_prefix(ss, (i + 1) as int);
                        assert(comb_of(cur) =~= comb_of(pre) + seq![*d]);
                        assert(arrows_of(cur) =~= arrows_of(pre));
                        assert(comb_of(cur).len() <= cs.len());
                        assert(comb_of(cur) =~= cs.subrange(0, comb_of(cur).len() as int));
                        assert(comb_of(cur).len() == comb_deps@.len() + 1);
                        assert(cs.subrange(0, comb_deps@.len() as int).push(*d) =~= cs.subrange(
                            0,
                            (comb_deps@.len() + 1) as int,
                        ));
                        assert(cs.subrange(0, comb_deps@.len() as int).push(*d)[
                            comb_deps@.len() as int] == *d);
                        assert(cs.subrange(0, (comb_deps@.len() + 1) as int)[
                            comb_deps@.len() as int] == cs[comb_deps@.len() as int]);
                        assert(cs[comb_deps@.len() as int] == *d);
                    }
                    match extractor.extract(&d.expr, false) {
                        Ok(dep) => {
                            comb_deps.push(dep);
                            comb_names.push(d.path.clone());
                            proof {
                                lemma_clean_transfer(
                                    *env,
                                    input,
                                    output,
                                    args,
                                    declarations,
                                    &frp_stmts,
                                    free_reads(d.expr, Set::empty()),
                                    false,
                                );
                                assert(cs[comb_deps@.len() - 1] == *d);
                            }
                        },
                        Err(es) => {
                            proof {
                                lemma_clean_transfer(
                                    *env,
                                    input,
                                    output,
                                    args,
                                    declarations,
                                    &frp_stmts,
                                    free_reads(d.expr, Set::empty()),
                                    false,
                                );
                                assert(!all_clean(*input, *output, *args, ds, ss));
                            }
                            return Err(es);
                        },
                    }
                },
                ItemFrpStmt::Arrow(a) => {
                    proof {
                        lemma_arrows_prefix(ss, (i + 1) as int);
                        assert(arrows_of(cur) =~= arrows_of(pre) + seq![*a]);
                        assert(comb_of(cur) =~= comb_of(pre));
                        assert(arrows_of(cur).len() <= ars.len());
                        assert(arrows_of(cur) =~= ars.subrange(0, arrows_of(cur).len() as int));
                        assert(arrows_of(cur).len() == arrow_deps@.len() + 1);
                        assert(ars.subrange(0, arrow_deps@.len() as int).push(*a) =~= ars.subrange(
                            0,
                            (arrow_deps@.len() + 1) as int,
                        ));
                        assert(ars.subrange(0, arrow_deps@.len() as int).push(*a)[
                            arrow_deps@.len() as int] == *a);
                        assert(ars.subrange(0, (arrow_deps@.len() + 1) as int)[
                            arrow_deps@.len() as int] == ars[arrow_deps@.len() as int]);
                        assert(ars[arrow_deps@.len() as int] == *a);
                    }
                    match extractor.extract_arrow(&a.arrow_expr, true) {
                        Ok(_d) => {
                            proof {
                                lemma_clean_transfer(
                                    *env,
                                    input,
                                    output,
                                    args,
                                    declarations,
                                    &frp_stmts,
                                    free_reads(*a.arrow_expr.expr, Set::empty()),
                                    true,
                                );
                            }
                        },
                        Err(es) => {
                            proof {
                                lemma_clean_transfer(
                                    *env,
                                    input,
                                    output,
                                    args,
                                    declarations,
                                    &frp_stmts,
                                    free_reads(*a.arrow_expr.expr, Set::empty()),
                                    true,
                                );
                                assert(!all_clean(*input, *output, *args, ds, ss));
                            }
                            return Err(es);
                        },
                    }
                    match extractor.extract(&a.expr, false) {
                        Ok(dep) => {
                            arrow_deps.push(dep);
                            arrow_names.push(a.path.clone());
                            proof {
                                lemma_clean_transfer(
                                    *env,
                                    input,
                                    output,
                                    args,
                                    declarations,
                                    &frp_stmts,
                                    free_reads(a.expr, Set::empty()),
                                    false,
                                );
                                assert(ars[arrow_deps@.len() - 1] == *a);
                            }
                        },
                        Err(es) => {
                            proof {
                                lemma_clean_transfer(
                                    *env,
                                    input,
                                    output,
                                    args,
                                    declarations,
                                    &frp_stmts,
                                    free_reads(a.expr, Set::empty()),
                                    false,
                                );
                                assert(!all_clean(*input, *output, *args, ds, ss));
                            }
                            return Err(es);
                        },
                    }
                },
            }
            i = i + 1;
        }
        proof {
            let n_s = frp_stmts@.len();
            assert(ss.subrange(0, n_s as int) =~= ss);
            assert(cs.subrange(0, comb_deps@.len() as int) =~= comb_of(ss));
            assert(ars.subrange(0, arrow_deps@.len() as int) =~= arrows_of(ss));
        }
    Ok((comb_deps, comb_names, arrow_deps, arrow_names))
}

/// Extract and validate the dependencies of every expression, then sort
/// both graphs; returns the two safe orders.
#[verifier::rlimit(100)]
fn extract_deps<'a, 'b>(
    env: &'b VarEnv<'a>,
    input: &'a ItemIn,
    output: &'a ItemOut,
    args: &'a Option<ItemArgs>,
    declarations: &'a Vec<ItemDeclaration>,
    frp_stmts: &'a Vec<ItemFrpStmt>,
) -> (r: Result<
    (Vec<usize>, Vec<usize>, Ghost<Seq<Vec<usize>>>, Ghost<Seq<Vec<usize>>>),
    Vec<Error>,
>)
    requires
        decls_supported(declarations@),
        env.wf(),
        env_build_ok(*input, *output, *args, declarations@, frp_stmts@),
        env_describes(*env, *input, *output, *args, declarations@, frp_stmts@),
    ensures
        r matches Ok(o) ==> {
            let ss = frp_stmts@;
            let cs = comb_of(ss);
            let ars = arrows_of(ss);
            &&& all_clean(*input, *output, *args, declarations@, ss)
            &&& !comb_cycle(ss)
            &&& !arrow_cycle(ss)
            &&& o.2@.len() == cs.len()
            &&& o.2@.len() <= usize::MAX
            &&& wf_graph(o.2@)
            &&& crate::lrfrp_ir::tsort::is_permutation(cs.len(), o.0@)
            &&& crate::lrfrp_ir::tsort::topo_sorted(o.2@, o.0@)
            &&& forall|i: int, j: int|
                0 <= i < cs.len() && 0 <= j < cs.len() ==> (#[trigger] edge(o.2@, i, j)
                    <==> free_reads(cs[i].expr, Set::empty()).contains(#[trigger] cs[j].path@))
            &&& o.3@.len() == ars.len()
            &&& o.3@.len() <= usize::MAX
            &&& wf_graph(o.3@)
            &&& crate::lrfrp_ir::tsort::is_permutation(ars.len(), o.1@)
            &&& crate::lrfrp_ir::tsort::topo_sorted(o.3@, o.1@)
            &&& forall|i: int, j: int|
                0 <= i < ars.len() && 0 <= j < ars.len() ==> (#[trigger] edge(o.3@, i, j)
                    <==> free_reads(ars[i].expr, Set::empty()).contains(
                    #[trigger] ars[j].path@))
        },
        r matches Err(es) ==> !deps_check_ok(*input, *output, *args, declarations@, frp_stmts@)
            && es@.len() > 0 && deps_err(es@, *input, *output, *args, declarations@, frp_stmts@),
{
    let ghost ss = frp_stmts@;
    let ghost ds = declarations@;
    let ghost cs = comb_of(ss);
    let ghost ars = arrows_of(ss);
        let extractor = DepExtractor::new(env);
        match check_declarations(env, input, output, args, declarations, frp_stmts) {
            Ok(_u) => {},
            Err(es) => {
                return Err(es);
            },
        }
        let (comb_deps, comb_names, arrow_deps, arrow_names) = match collect_stmt_deps(
            env,
            input,
            output,
            args,
            declarations,
            frp_stmts,
        ) {
            Ok(o) => o,
            Err(es) => {
                return Err(es);
            },
        };
        proof {
            lemma_comb_of_facts(ss);
            lemma_arrows_of_facts(ss);
        }
        proof {
            lemma_stmts_names_distinct(*input, *args, ds, ss);
            assert forall|p: int, q: int| 0 <= p < q < comb_names@.len() implies comb_names@[p]@
                != comb_names@[q]@ by {
                assert(cs[p].path@ != cs[q].path@);
            }
            assert forall|p: int, q: int| 0 <= p < q < arrow_names@.len() implies
                arrow_names@[p]@ != arrow_names@[q]@ by {
                assert(ars[p].path@ != ars[q].path@);
            }
        }
        let (comb_order, comb_gadj) = match sort_comb_graph(
            &comb_deps,
            &comb_names,
            Ghost(ss),
        ) {
            Ok(o) => o,
            Err(es) => {
                return Err(es);
            },
        };
        let ghost comb_adj = comb_gadj@;
        let (arrow_order, arrow_gadj) = match sort_arrow_graph(
            &arrow_deps,
            &arrow_names,
            Ghost(ss),
        ) {
            Ok(o) => o,
            Err(es) => {
                return Err(es);
            },
        };
        let ghost arrow_adj = arrow_gadj@;
        Ok((comb_order, arrow_order, Ghost(comb_adj), Ghost(arrow_adj)))
}

/// Build and sort the combinational dependency graph: a safe evaluation
/// order, or the one offending equation on a genuine cycle.
#[verifier::rlimit(100)]
fn sort_comb_graph(
    comb_deps: &Vec<Vec<String>>,
    comb_names: &Vec<String>,
    Ghost(ss): Ghost<Seq<ItemFrpStmt>>,
) -> (r: Result<(Vec<usize>, Ghost<Seq<Vec<usize>>>), Vec<Error>>)
    requires
        comb_deps@.len() == comb_of(ss).len(),
        comb_names@.len() == comb_of(ss).len(),
        forall|k: int| 0 <= k < comb_of(ss).len() ==> #[trigger] comb_names@[k]@ == comb_of(
            ss,
        )[k].path@,
        forall|k: int|
            0 <= k < comb_of(ss).len() ==> #[trigger] names_set(comb_deps@[k]@) == free_reads(
                comb_of(ss)[k].expr,
                Set::empty(),
            ),
        forall|p: int, q: int|
            0 <= p < q < comb_names@.len() ==> comb_names@[p]@ != comb_names@[q]@,
    ensures
        r matches Ok(o) ==> {
            let cs = comb_of(ss);
            &&& o.1@.len() == cs.len()
            &&& o.1@.len() <= usize::MAX
            &&& wf_graph(o.1@)
            &&& crate::lrfrp_ir::tsort::is_permutation(cs.len(), o.0@)
            &&& crate::lrfrp_ir::tsort::topo_sorted(o.1@, o.0@)
            &&& forall|i: int, j: int|
                0 <= i < cs.len() && 0 <= j < cs.len() ==> (#[trigger] edge(o.1@, i, j)
                    <==> free_reads(cs[i].expr, Set::empty()).contains(#[trigger] cs[j].path@))
            &&& !comb_cycle(ss)
        },
        r matches Err(es) ==> es@.len() == 1 && match es@[0] {
            Error::CyclicDependency(n) => named_comb_cycle(ss, n@) && comb_cycle(ss),
            _ => false,
        },
{
    let ghost cs = comb_of(ss);
    let comb_adj = build_adj(comb_deps, comb_names);
    proof {
        lemma_edge_iff_dep(cs, comb_deps@, comb_names@, comb_adj@);
    }
    let comb_order = match tsort(&comb_adj) {
        Ok(o) => o,
        Err(c) => {
            proof {
                lemma_named_comb_cycle(cs, comb_adj@, c);
                assert(named_comb_cycle(ss, cs[c as int].path@));
            }
            let mut es: Vec<Error> = Vec::new();
            es.push(Error::CyclicDependency(comb_names[c].clone()));
            return Err(es);
        },
    };
    proof {
        assert(comb_adj@.len() == comb_adj.len());
        lemma_no_comb_cycle(cs, comb_adj@, comb_order@, ss);
        assert(crate::lrfrp_ir::tsort::is_permutation(cs.len(), comb_order@));
    }
    Ok((comb_order, Ghost(comb_adj@)))
}

/// Build and sort the register-update graph: a safe update order, or
/// the one offending register on a genuine cycle.
#[verifier::rlimit(100)]
fn sort_arrow_graph(
    arrow_deps: &Vec<Vec<String>>,
    arrow_names: &Vec<String>,
    Ghost(ss): Ghost<Seq<ItemFrpStmt>>,
) -> (r: Result<(Vec<usize>, Ghost<Seq<Vec<usize>>>), Vec<Error>>)
    requires
        arrow_deps@.len() == arrows_of(ss).len(),
        arrow_names@.len() == arrows_of(ss).len(),
        forall|k: int|
            0 <= k < arrows_of(ss).len() ==> #[trigger] arrow_names@[k]@ == arrows_of(
                ss,
            )[k].path@,
        forall|k: int|
            0 <= k < arrows_of(ss).len() ==> #[trigger] names_set(arrow_deps@[k]@)
                == free_reads(arrows_of(ss)[k].expr, Set::empty()),
        forall|p: int, q: int|
            0 <= p < q < arrow_names@.len() ==> arrow_names@[p]@ != arrow_names@[q]@,
    ensures
        r matches Ok(o) ==> {
            let ars = arrows_of(ss);
            &&& o.1@.len() == ars.len()
            &&& o.1@.len() <= usize::MAX
            &&& wf_graph(o.1@)
            &&& crate::lrfrp_ir::tsort::is_permutation(ars.len(), o.0@)
            &&& crate::lrfrp_ir::tsort::topo_sorted(o.1@, o.0@)
            &&& forall|i: int, j: int|
                0 <= i < ars.len() && 0 <= j < ars.len() ==> (#[trigger] edge(o.1@, i, j)
                    <==> free_reads(ars[i].expr, Set::empty()).contains(
                    #[trigger] ars[j].path@))
            &&& !arrow_cycle(ss)
        },
        r matches Err(es) ==> es@.len() == 1 && match es@[0] {
            Error::CyclicDependency(n) => named_arrow_cycle(ss, n@) && arrow_cycle(ss),
            _ => false,
        },
{
    let ghost ars = arrows_of(ss);
    let arrow_adj = build_adj(arrow_deps, arrow_names);
    proof {
        lemma_edge_iff_arrow(ars, arrow_deps@, arrow_names@, arrow_adj@);
    }
    let arrow_order = match tsort(&arrow_adj) {
        Ok(o) => o,
        Err(c) => {
            proof {
                lemma_named_arrow_cycle(ars, arrow_adj@, c);
                assert(named_arrow_cycle(ss, ars[c as int].path@));
            }
            let mut es: Vec<Error> = Vec::new();
            es.push(Error::CyclicDependency(arrow_names[c].clone()));
            return Err(es);
        },
    };
    proof {
        assert(arrow_adj@.len() == arrow_adj.len());
        lemma_no_arrow_cycle(ars, arrow_adj@, arrow_order@, ss);
        assert(crate::lrfrp_ir::tsort::is_permutation(ars.len(), arrow_order@));
    }
    Ok((arrow_order, Ghost(arrow_adj@)))
}

/// Merge the two sorted orders with the equation bodies into the final
/// evaluation plan.
pub fn generate_ordered_stmts(
    frp_stmts: Vec<ItemFrpStmt>,
    comb_order: &Vec<usize>,
    arrow_order: &Vec<usize>,
    Ghost(comb_adj): Ghost<Seq<Vec<usize>>>,
    Ghost(arrow_adj): Ghost<Seq<Vec<usize>>>,
) -> (os: OrderedStmts)
    requires
        comb_adj.len() == comb_of(frp_stmts@).len(),
        comb_adj.len() <= usize::MAX,
        wf_graph(comb_adj),
        crate::lrfrp_ir::tsort::is_permutation(comb_adj.len(), comb_order@),
        crate::lrfrp_ir::tsort::topo_sorted(comb_adj, comb_order@),
        forall|i: int, j: int|
            0 <= i < comb_of(frp_stmts@).len() && 0 <= j < comb_of(frp_stmts@).len() ==> (
            #[trigger] edge(comb_adj, i, j) <==> free_reads(
                comb_of(frp_stmts@)[i].expr,
                Set::empty(),
            ).contains(#[trigger] comb_of(frp_stmts@)[j].path@)),
        arrow_adj.len() == arrows_of(frp_stmts@).len(),
        arrow_adj.len() <= usize::MAX,
        wf_graph(arrow_adj),
        crate::lrfrp_ir::tsort::is_permutation(arrow_adj.len(), arrow_order@),
        crate::lrfrp_ir::tsort::topo_sorted(arrow_adj, arrow_order@),
        forall|i: int, j: int|
            0 <= i < arrows_of(frp_stmts@).len() && 0 <= j < arrows_of(frp_stmts@).len() ==> (
            #[trigger] edge(arrow_adj, i, j) <==> free_reads(
                arrows_of(frp_stmts@)[i].expr,
                Set::empty(),
            ).contains(#[trigger] arrows_of(frp_stmts@)[j].path@)),
    ensures
        plan_post(os, frp_stmts@),
{
    let ghost ss = frp_stmts@;
    let ghost cs = comb_of(ss);
    let ghost ars = arrows_of(ss);
    let (comb_vec, arrow_vec) = partition_stmts(frp_stmts);
    let dependencies = reorder(comb_vec, comb_order);
    let arrows = reorder(arrow_vec, arrow_order);
    let os = OrderedStmts { dependencies, arrows };
    proof {
        lemma_comb_of_facts(ss);
        lemma_arrows_of_facts(ss);
        lemma_reorder_perm_dep(comb_order@, cs, os.dependencies@);
        lemma_reorder_perm_arrow(arrow_order@, ars, os.arrows@);
        // every read points backwards in the plan
        lemma_plan_no_forward_dep(cs, comb_adj, comb_order@, os.dependencies@, ss);
        lemma_plan_no_forward_arrow(ars, arrow_adj, arrow_order@, os.arrows@, ss);
    }
    os
}


/// The combinational slice of a prefix is a prefix of the combinational
/// slice.
proof fn lemma_comb_prefix(ss: Seq<ItemFrpStmt>, p: int)
    requires
        0 <= p <= ss.len(),
    ensures
        comb_of(ss.subrange(0, p)).len() <= comb_of(ss).len(),
        comb_of(ss.subrange(0, p)) == comb_of(ss).subrange(
            0,
            comb_of(ss.subrange(0, p)).len() as int,
        ),
    decreases ss.len() - p,
{
    if p == ss.len() {
        assert(ss.subrange(0, p) =~= ss);
        assert(comb_of(ss).subrange(0, comb_of(ss).len() as int) =~= comb_of(ss));
    } else {
        lemma_comb_prefix(ss, p + 1);
        let a = ss.subrange(0, p);
        let b = ss.subrange(0, p + 1);
        assert(b.drop_last() =~= a);
        assert(b.last() == ss[p]);
        match ss[p] {
            ItemFrpStmt::Dependency(d) => {
                assert(comb_of(b) =~= comb_of(a) + seq![d]);
            },
            ItemFrpStmt::Arrow(_) => {
                assert(comb_of(b) =~= comb_of(a));
            },
        }
        assert(comb_of(a) =~= comb_of(ss).subrange(0, comb_of(a).len() as int));
    }
}

/// The register slice of a prefix is a prefix of the register slice.
proof fn lemma_arrows_prefix(ss: Seq<ItemFrpStmt>, p: int)
    requires
        0 <= p <= ss.len(),
    ensures
        arrows_of(ss.subrange(0, p)).len() <= arrows_of(ss).len(),
        arrows_of(ss.subrange(0, p)) == arrows_of(ss).subrange(
            0,
            arrows_of(ss.subrange(0, p)).len() as int,
        ),
    decreases ss.len() - p,
{
    if p == ss.len() {
        assert(ss.subrange(0, p) =~= ss);
        assert(arrows_of(ss).subrange(0, arrows_of(ss).len() as int) =~= arrows_of(ss));
    } else {
        lemma_arrows_prefix(ss, p + 1);
        let a = ss.subrange(0, p);
        let b = ss.subrange(0, p + 1);
        assert(b.drop_last() =~= a);
        assert(b.last() == ss[p]);
        match ss[p] {
            ItemFrpStmt::Arrow(ar) => {
                assert(arrows_of(b) =~= arrows_of(a) + seq![ar]);
            },
            ItemFrpStmt::Dependency(_) => {
                assert(arrows_of(b) =~= arrows_of(a));
            },
        }
        assert(arrows_of(a) =~= arrows_of(ss).subrange(0, arrows_of(a).len() as int));
    }
}

/// An index cycle of the built graph is a genuine read cycle.
proof fn lemma_reads_cycle_from_index(
    cs: Seq<FrpStmtDependency>,
    adj: Seq<Vec<usize>>,
    cyc: Seq<int>,
)
    requires
        adj.len() == cs.len(),
        forall|i: int, j: int|
            0 <= i < cs.len() && 0 <= j < cs.len() ==> (#[trigger] edge(adj, i, j)
                <==> free_reads(cs[i].expr, Set::empty()).contains(#[trigger] cs[j].path@)),
        crate::lrfrp_ir::tsort::is_cycle(adj, cyc),
    ensures
        comb_reads_cycle(cs, cyc),
{
    let len = cyc.len() as int;
    assert forall|k: int| 0 <= k < len implies (0 <= #[trigger] cyc[k] < cs.len() && free_reads(
        cs[cyc[k]].expr,
        Set::empty(),
    ).contains(cs[cyc[(k + 1) % len]].path@)) by {
        assert(edge(adj, cyc[k], cyc[(k + 1) % len]));
        assert(edge(adj, cyc[(k + 1) % len], cyc[(((k + 1) % len) + 1) % len]));
    }
}

/// A cycle detected in the built graph convicts the reported equation:
/// it lies on a genuine combinational read cycle.
#[verifier::rlimit(100)]
proof fn lemma_named_comb_cycle(cs: Seq<FrpStmtDependency>, adj: Seq<Vec<usize>>, c: usize)
    requires
        adj.len() == cs.len(),
        forall|i: int, j: int|
            0 <= i < cs.len() && 0 <= j < cs.len() ==> (#[trigger] edge(adj, i, j)
                <==> free_reads(cs[i].expr, Set::empty()).contains(#[trigger] cs[j].path@)),
        crate::lrfrp_ir::tsort::cycle_through(adj, c),
        (c as int) < cs.len(),
    ensures
        exists|cyc: Seq<int>|
            #[trigger] comb_reads_cycle(cs, cyc) && (exists|k: int|
                0 <= k < cyc.len() && cs[#[trigger] cyc[k]].path@ == cs[c as int].path@),
{
    let cyc = choose|cyc: Seq<int>|
        crate::lrfrp_ir::tsort::is_cycle(adj, cyc) && #[trigger] cyc.contains(c as int);
    lemma_reads_cycle_from_index(cs, adj, cyc);
    let k = choose|k: int| 0 <= k < cyc.len() && cyc[k] == c as int;
    assert(cs[cyc[k]].path@ == cs[c as int].path@);
}

/// A cycle detected in the register graph convicts the reported
/// register: it lies on a genuine update cycle.
#[verifier::rlimit(100)]
proof fn lemma_named_arrow_cycle(cs: Seq<FrpStmtArrow>, adj: Seq<Vec<usize>>, c: usize)
    requires
        adj.len() == cs.len(),
        forall|i: int, j: int|
            0 <= i < cs.len() && 0 <= j < cs.len() ==> (#[trigger] edge(adj, i, j)
                <==> free_reads(cs[i].expr, Set::empty()).contains(#[trigger] cs[j].path@)),
        crate::lrfrp_ir::tsort::cycle_through(adj, c),
        (c as int) < cs.len(),
    ensures
        exists|cyc: Seq<int>|
            #[trigger] arrow_reads_cycle(cs, cyc) && (exists|k: int|
                0 <= k < cyc.len() && cs[#[trigger] cyc[k]].path@ == cs[c as int].path@),
{
    let cyc = choose|cyc: Seq<int>|
        crate::lrfrp_ir::tsort::is_cycle(adj, cyc) && #[trigger] cyc.contains(c as int);
    lemma_arrow_cycle_from_index(cs, adj, cyc);
    let k = choose|k: int| 0 <= k < cyc.len() && cyc[k] == c as int;
    assert(cs[cyc[k]].path@ == cs[c as int].path@);
}

/// A genuine read cycle is an index cycle of the built graph.
proof fn lemma_index_cycle_from_reads(
    cs: Seq<FrpStmtDependency>,
    adj: Seq<Vec<usize>>,
    cyc: Seq<int>,
)
    requires
        adj.len() == cs.len(),
        forall|i: int, j: int|
            0 <= i < cs.len() && 0 <= j < cs.len() ==> (#[trigger] edge(adj, i, j)
                <==> free_reads(cs[i].expr, Set::empty()).contains(#[trigger] cs[j].path@)),
        comb_reads_cycle(cs, cyc),
    ensures
        crate::lrfrp_ir::tsort::is_cycle(adj, cyc),
{
    let len = cyc.len() as int;
    assert forall|k: int| 0 <= k < len implies edge(adj, #[trigger] cyc[k], cyc[(k + 1) % len])
        by {
        assert(0 <= (k + 1) % len < len);
        assert(0 <= cyc[(k + 1) % len] < cs.len());
        assert(free_reads(cs[cyc[k]].expr, Set::empty()).contains(cs[cyc[(k + 1) % len]].path@));
    }
}

/// An index cycle of the register graph is a genuine update-read cycle.
proof fn lemma_arrow_cycle_from_index(cs: Seq<FrpStmtArrow>, adj: Seq<Vec<usize>>, cyc: Seq<int>)
    requires
        adj.len() == cs.len(),
        forall|i: int, j: int|
            0 <= i < cs.len() && 0 <= j < cs.len() ==> (#[trigger] edge(adj, i, j)
                <==> free_reads(cs[i].expr, Set::empty()).contains(#[trigger] cs[j].path@)),
        crate::lrfrp_ir::tsort::is_cycle(adj, cyc),
    ensures
        arrow_reads_cycle(cs, cyc),
{
    let len = cyc.len() as int;
    assert forall|k: int| 0 <= k < len implies (0 <= #[trigger] cyc[k] < cs.len() && free_reads(
        cs[cyc[k]].expr,
        Set::empty(),
    ).contains(cs[cyc[(k + 1) % len]].path@)) by {
        assert(edge(adj, cyc[k], cyc[(k + 1) % len]));
        assert(edge(adj, cyc[(k + 1) % len], cyc[(((k + 1) % len) + 1) % len]));
    }
}

/// A genuine update-read cycle is an index cycle of the register graph.
proof fn lemma_arrow_index_cycle_from_reads(
    cs: Seq<FrpStmtArrow>,
    adj: Seq<Vec<usize>>,
    cyc: Seq<int>,
)
    requires
        adj.len() == cs.len(),
        forall|i: int, j: int|
            0 <= i < cs.len() && 0 <= j < cs.len() ==> (#[trigger] edge(adj, i, j)
                <==> free_reads(cs[i].expr, Set::empty()).contains(#[trigger] cs[j].path@)),
        arrow_reads_cycle(cs, cyc),
    ensures
        crate::lrfrp_ir::tsort::is_cycle(adj, cyc),
{
    let len = cyc.len() as int;
    assert forall|k: int| 0 <= k < len implies edge(adj, #[trigger] cyc[k], cyc[(k + 1) % len])
        by {
        assert(0 <= (k + 1) % len < len);
        assert(0 <= cyc[(k + 1) % len] < cs.len());
        assert(free_reads(cs[cyc[k]].expr, Set::empty()).contains(cs[cyc[(k + 1) % len]].path@));
    }
}

/// In the sorted plan, every combinational equation stands after every
/// combinational equation it reads.
#[verifier::rlimit(100)]
proof fn lemma_plan_no_forward_dep(
    cs: Seq<FrpStmtDependency>,
    adj: Seq<Vec<usize>>,
    order: Seq<usize>,
    plan: Seq<FrpStmtDependency>,
    ss: Seq<ItemFrpStmt>,
)
    requires
        adj.len() == cs.len(),
        wf_graph(adj),
        crate::lrfrp_ir::tsort::is_permutation(cs.len(), order),
        crate::lrfrp_ir::tsort::topo_sorted(adj, order),
        forall|i: int, j: int|
            0 <= i < cs.len() && 0 <= j < cs.len() ==> (#[trigger] edge(adj, i, j)
                <==> free_reads(cs[i].expr, Set::empty()).contains(#[trigger] cs[j].path@)),
        plan.len() == cs.len(),
        forall|k: int| 0 <= k < plan.len() ==> #[trigger] plan[k] == cs[order[k] as int],
        forall|n: Seq<char>|
            #[trigger] is_comb_name(ss, n) <==> exists|j: int|
                0 <= j < cs.len() && #[trigger] cs[j].path@ == n,
    ensures
        forall|k: int, n: Seq<char>|
            #![trigger free_reads(plan[k].expr, Set::empty()).contains(n)]
            0 <= k < plan.len() && free_reads(plan[k].expr, Set::empty()).contains(n)
                && is_comb_name(ss, n) ==> dep_before(plan, k, n),
{
    assert forall|k: int, n: Seq<char>|
        #![trigger free_reads(plan[k].expr, Set::empty()).contains(n)]
        0 <= k < plan.len() && free_reads(plan[k].expr, Set::empty()).contains(n)
            && is_comb_name(ss, n) implies dep_before(plan, k, n) by {
        let j = choose|j: int| 0 <= j < cs.len() && #[trigger] cs[j].path@ == n;
        assert(plan[k] == cs[order[k] as int]);
        assert(free_reads(cs[order[k] as int].expr, Set::empty()).contains(cs[j].path@));
        assert(edge(adj, order[k] as int, j));
        let kk = choose|kk: int|
            0 <= kk < adj[order[k] as int]@.len() && #[trigger] adj[order[k] as int]@[kk] as int
                == j;
        assert(crate::lrfrp_ir::tsort::appears_before(
            order,
            k,
            adj[order[k] as int]@[kk],
        ));
        let q = choose|q: int|
            0 <= q < k && #[trigger] order[q] == adj[order[k] as int]@[kk];
        assert(plan[q] == cs[order[q] as int]);
        assert(order[q] as int == j);
        assert(plan[q].path@ == n);
    }
}

/// In the sorted plan, every register update stands after every register
/// whose name it reads.
#[verifier::rlimit(100)]
proof fn lemma_plan_no_forward_arrow(
    cs: Seq<FrpStmtArrow>,
    adj: Seq<Vec<usize>>,
    order: Seq<usize>,
    plan: Seq<FrpStmtArrow>,
    ss: Seq<ItemFrpStmt>,
)
    requires
        adj.len() == cs.len(),
        wf_graph(adj),
        crate::lrfrp_ir::tsort::is_permutation(cs.len(), order),
        crate::lrfrp_ir::tsort::topo_sorted(adj, order),
        forall|i: int, j: int|
            0 <= i < cs.len() && 0 <= j < cs.len() ==> (#[trigger] edge(adj, i, j)
                <==> free_reads(cs[i].expr, Set::empty()).contains(#[trigger] cs[j].path@)),
        plan.len() == cs.len(),
        forall|k: int| 0 <= k < plan.len() ==> #[trigger] plan[k] == cs[order[k] as int],
        forall|n: Seq<char>|
            #[trigger] is_arrow_name(ss, n) <==> exists|j: int|
                0 <= j < cs.len() && #[trigger] cs[j].path@ == n,
    ensures
        forall|k: int, n: Seq<char>|
            #![trigger free_reads(plan[k].expr, Set::empty()).contains(n)]
            0 <= k < plan.len() && free_reads(plan[k].expr, Set::empty()).contains(n)
                && is_arrow_name(ss, n) ==> arrow_before(plan, k, n),
{
    assert forall|k: int, n: Seq<char>|
        #![trigger free_reads(plan[k].expr, Set::empty()).contains(n)]
        0 <= k < plan.len() && free_reads(plan[k].expr, Set::empty()).contains(n)
            && is_arrow_name(ss, n) implies arrow_before(plan, k, n) by {
        let j = choose|j: int| 0 <= j < cs.len() && #[trigger] cs[j].path@ == n;
        assert(plan[k] == cs[order[k] as int]);
        assert(free_reads(cs[order[k] as int].expr, Set::empty()).contains(cs[j].path@));
        assert(edge(adj, order[k] as int, j));
        let kk = choose|kk: int|
            0 <= kk < adj[order[k] as int]@.len() && #[trigger] adj[order[k] as int]@[kk] as int
                == j;
        assert(crate::lrfrp_ir::tsort::appears_before(
            order,
            k,
            adj[order[k] as int]@[kk],
        ));
        let q = choose|q: int|
            0 <= q < k && #[trigger] order[q] == adj[order[k] as int]@[kk];
        assert(plan[q] == cs[order[q] as int]);
        assert(order[q] as int == j);
        assert(plan[q].path@ == n);
    }
}


/// The equation names of a well-declared program are pairwise distinct.
proof fn lemma_stmts_names_distinct(
    input: ItemIn,
    args: Option<ItemArgs>,
    ds: Seq<ItemDeclaration>,
    ss: Seq<ItemFrpStmt>,
)
    requires
        distinct_names(decl_seq(input, args, ds, ss)),
    ensures
        forall|p: int, q: int|
            0 <= p < q < ss.len() ==> stmts_names(ss)[p] != stmts_names(ss)[q],
{
    assert forall|p: int, q: int| 0 <= p < q < ss.len() implies stmts_names(ss)[p]
        != stmts_names(ss)[q] by {
        let dseq = decl_seq(input, args, ds, ss);
        let na = args_names(args).len() as int;
        let ni = fields_names(input.fields@).len() as int;
        assert(dseq[na + ni + p] == stmts_names(ss)[p]);
        assert(dseq[na + ni + q] == stmts_names(ss)[q]);
    }
}

/// A reordered combinational list is a rearrangement of the source.
proof fn lemma_reorder_perm_dep(
    order: Seq<usize>,
    src: Seq<FrpStmtDependency>,
    dst: Seq<FrpStmtDependency>,
)
    requires
        crate::lrfrp_ir::tsort::is_permutation(src.len(), order),
        dst.len() == src.len(),
        forall|k: int| 0 <= k < dst.len() ==> #[trigger] dst[k] == src[order[k] as int],
    ensures
        is_reorder(order.map_values(|u: usize| u as int), dst, src),
{
    let p = order.map_values(|u: usize| u as int);
    assert forall|k: int| 0 <= k < p.len() implies 0 <= #[trigger] p[k] < src.len() by {}
    assert forall|k1: int, k2: int| 0 <= k1 < k2 < p.len() implies p[k1] != p[k2] by {
        assert(order[k1] != order[k2]);
    }
    assert forall|k: int| 0 <= k < p.len() implies #[trigger] dst[k] == src[p[k]] by {}
}

/// A reordered register list is a rearrangement of the source.
proof fn lemma_reorder_perm_arrow(
    order: Seq<usize>,
    src: Seq<FrpStmtArrow>,
    dst: Seq<FrpStmtArrow>,
)
    requires
        crate::lrfrp_ir::tsort::is_permutation(src.len(), order),
        dst.len() == src.len(),
        forall|k: int| 0 <= k < dst.len() ==> #[trigger] dst[k] == src[order[k] as int],
    ensures
        is_reorder(order.map_values(|u: usize| u as int), dst, src),
{
    let p = order.map_values(|u: usize| u as int);
    assert forall|k: int| 0 <= k < p.len() implies 0 <= #[trigger] p[k] < src.len() by {}
    assert forall|k1: int, k2: int| 0 <= k1 < k2 < p.len() implies p[k1] != p[k2] by {
        assert(order[k1] != order[k2]);
    }
    assert forall|k: int| 0 <= k < p.len() implies #[trigger] dst[k] == src[p[k]] by {}
}


/// The built graph's edges are exactly the name reads (combinational).
proof fn lemma_edge_iff_dep(
    cs: Seq<FrpStmtDependency>,
    deps: Seq<Vec<String>>,
    names: Seq<String>,
    adj: Seq<Vec<usize>>,
)
    requires
        deps.len() == cs.len(),
        names.len() == cs.len(),
        adj.len() == cs.len(),
        forall|k: int| 0 <= k < cs.len() ==> #[trigger] names[k]@ == cs[k].path@,
        forall|k: int|
            0 <= k < cs.len() ==> #[trigger] names_set(deps[k]@) == free_reads(
                cs[k].expr,
                Set::empty(),
            ),
        forall|i: int, j: int|
            0 <= i < adj.len() && 0 <= j < names.len() ==> (#[trigger] edge(adj, i, j)
                <==> names_set(deps[i]@).contains(names[j]@)),
    ensures
        forall|i: int, j: int|
            0 <= i < cs.len() && 0 <= j < cs.len() ==> (#[trigger] edge(adj, i, j)
                <==> free_reads(cs[i].expr, Set::empty()).contains(#[trigger] cs[j].path@)),
{
    assert forall|i: int, j: int| 0 <= i < cs.len() && 0 <= j < cs.len() implies (
    #[trigger] edge(adj, i, j) <==> free_reads(cs[i].expr, Set::empty()).contains(
        #[trigger] cs[j].path@,
    )) by {
        assert(names_set(deps[i]@) == free_reads(cs[i].expr, Set::empty()));
        assert(names[j]@ == cs[j].path@);
    }
}

/// The built graph's edges are exactly the name reads (registers).
proof fn lemma_edge_iff_arrow(
    cs: Seq<FrpStmtArrow>,
    deps: Seq<Vec<String>>,
    names: Seq<String>,
    adj: Seq<Vec<usize>>,
)
    requires
        deps.len() == cs.len(),
        names.len() == cs.len(),
        adj.len() == cs.len(),
        forall|k: int| 0 <= k < cs.len() ==> #[trigger] names[k]@ == cs[k].path@,
        forall|k: int|
            0 <= k < cs.len() ==> #[trigger] names_set(deps[k]@) == free_reads(
                cs[k].expr,
                Set::empty(),
            ),
        forall|i: int, j: int|
            0 <= i < adj.len() && 0 <= j < names.len() ==> (#[trigger] edge(adj, i, j)
                <==> names_set(deps[i]@).contains(names[j]@)),
    ensures
        forall|i: int, j: int|
            0 <= i < cs.len() && 0 <= j < cs.len() ==> (#[trigger] edge(adj, i, j)
                <==> free_reads(cs[i].expr, Set::empty()).contains(#[trigger] cs[j].path@)),
{
    assert forall|i: int, j: int| 0 <= i < cs.len() && 0 <= j < cs.len() implies (
    #[trigger] edge(adj, i, j) <==> free_reads(cs[i].expr, Set::empty()).contains(
        #[trigger] cs[j].path@,
    )) by {
        assert(names_set(deps[i]@) == free_reads(cs[i].expr, Set::empty()));
        assert(names[j]@ == cs[j].path@);
    }
}

/// A sorted combinational graph has no genuine cycle.
proof fn lemma_no_comb_cycle(
    cs: Seq<FrpStmtDependency>,
    adj: Seq<Vec<usize>>,
    order: Seq<usize>,
    ss: Seq<ItemFrpStmt>,
)
    requires
        adj.len() == cs.len(),
        adj.len() <= usize::MAX,
        wf_graph(adj),
        crate::lrfrp_ir::tsort::is_permutation(adj.len(), order),
        crate::lrfrp_ir::tsort::topo_sorted(adj, order),
        forall|i: int, j: int|
            0 <= i < cs.len() && 0 <= j < cs.len() ==> (#[trigger] edge(adj, i, j)
                <==> free_reads(cs[i].expr, Set::empty()).contains(#[trigger] cs[j].path@)),
        cs == comb_of(ss),
    ensures
        !comb_cycle(ss),
{
    assert forall|cyc: Seq<int>| !(#[trigger] comb_reads_cycle(cs, cyc)) by {
        if comb_reads_cycle(cs, cyc) {
            lemma_index_cycle_from_reads(cs, adj, cyc);
            lemma_topo_no_cycle(adj, order, cyc);
        }
    }
}

/// A sorted register graph has no genuine cycle.
proof fn lemma_no_arrow_cycle(
    cs: Seq<FrpStmtArrow>,
    adj: Seq<Vec<usize>>,
    order: Seq<usize>,
    ss: Seq<ItemFrpStmt>,
)
    requires
        adj.len() == cs.len(),
        adj.len() <= usize::MAX,
        wf_graph(adj),
        crate::lrfrp_ir::tsort::is_permutation(adj.len(), order),
        crate::lrfrp_ir::tsort::topo_sorted(adj, order),
        forall|i: int, j: int|
            0 <= i < cs.len() && 0 <= j < cs.len() ==> (#[trigger] edge(adj, i, j)
                <==> free_reads(cs[i].expr, Set::empty()).contains(#[trigger] cs[j].path@)),
        cs == arrows_of(ss),
    ensures
        !arrow_cycle(ss),
{
    assert forall|cyc: Seq<int>| !(#[trigger] arrow_reads_cycle(cs, cyc)) by {
        if arrow_reads_cycle(cs, cyc) {
            lemma_arrow_index_cycle_from_reads(cs, adj, cyc);
            lemma_topo_no_cycle(adj, order, cyc);
        }
    }
}


// ---------------------------------------------------------------------
// The laws of the compiled plan.
// ---------------------------------------------------------------------

/// In an accepted plan the combinational evaluation order assigns every
/// name before any equation that reads it: whenever a combinational
/// equation of the plan reads a combinational name, that name is the
/// left-hand side of an earlier equation of the plan.
pub proof fn lemma_plan_assigns_before_use(
    os: OrderedStmts,
    ss: Seq<ItemFrpStmt>,
    k: int,
    n: Seq<char>,
)
    requires
        plan_post(os, ss),
        0 <= k < os.dependencies@.len(),
        free_reads(os.dependencies@[k].expr, Set::empty()).contains(n),
        is_comb_name(ss, n),
    ensures
        dep_before(os.dependencies@, k, n),
{
}

/// In an accepted plan every register update stands after every
/// register whose current value it reads, so a staged commit observes
/// only pre-tick values.
pub proof fn lemma_update_order_safe(
    os: OrderedStmts,
    ss: Seq<ItemFrpStmt>,
    k: int,
    n: Seq<char>,
)
    requires
        plan_post(os, ss),
        0 <= k < os.arrows@.len(),
        free_reads(os.arrows@[k].expr, Set::empty()).contains(n),
        is_arrow_name(ss, n),
    ensures
        arrow_before(os.arrows@, k, n),
{
}

/// In an accepted program every register initializer and every helper
/// function body reads only constant-like names — arguments or helper
/// functions — so the initial register values are computed purely from
/// the construction arguments, before any input exists.
pub proof fn lemma_init_reads_constants(
    input: ItemIn,
    output: ItemOut,
    args: Option<ItemArgs>,
    ds: Seq<ItemDeclaration>,
    ss: Seq<ItemFrpStmt>,
)
    requires
        deps_check_ok(input, output, args, ds, ss),
    ensures
        forall|i: int|
            0 <= i < ss.len() ==> (#[trigger] ss[i] matches ItemFrpStmt::Arrow(a)
                ==> forall|n: Seq<char>|
                #[trigger] free_reads(*a.arrow_expr.expr, Set::empty()).contains(n)
                    ==> name_mono(output, args, ds, n)),
        forall|i: int|
            0 <= i < ds.len() ==> (#[trigger] ds[i] matches ItemDeclaration::Fn(f)
                ==> forall|n: Seq<char>| #[trigger] fn_reads(f).contains(n) ==> name_mono(
                output,
                args,
                ds,
                n,
            )),
{
}

/// The classification step surfaces a register's own declared type: in
/// the symbol table every register name resolves to a cell carrying
/// exactly the type written on its equation, so every read of that name
/// sees the declared type, never an inferred one.
pub proof fn lemma_register_type_surfaces<'a>(
    env: VarEnv<'a>,
    input: ItemIn,
    output: ItemOut,
    args: Option<ItemArgs>,
    ds: Seq<ItemDeclaration>,
    ss: Seq<ItemFrpStmt>,
    i: int,
)
    requires
        env_describes(env, input, output, args, ds, ss),
        0 <= i < ss.len(),
        ss[i] is Arrow,
    ensures
        ss[i] matches ItemFrpStmt::Arrow(a) ==> {
            &&& env.as_map().dom().contains(a.path@)
            &&& env.as_map()[a.path@] matches Type::Lifted(TypeLifted::Cell(
                MaybeType::Resolved(t),
            )) && *t == a.ty
        },
{
}

} // verus!
