use vstd::prelude::*;

pub mod deps_check;
pub mod deps_trailer;
pub mod error;
pub mod tsort;
pub mod types;

use crate::ast::{
    Ast, Item, ItemArgs, ItemDeclaration, ItemFrpStmt, ItemIn, ItemMod, ItemOut,
};
use deps_check::{
    decls_supported, deps_check, deps_check_ok, deps_err, plan_post, OrderedStmts,
};
use error::Error;

verus! {

/// The module headers, in order of appearance.
pub open spec fn mods_of(items: Seq<Item>) -> Seq<ItemMod>
    decreases items,
{
    if items.len() == 0 {
        Seq::empty()
    } else {
        mods_of(items.drop_last()) + (match items.last() {
            Item::Mod(m) => seq![m],
            _ => Seq::empty(),
        })
    }
}

/// The `In` sections, in order of appearance.
pub open spec fn ins_of(items: Seq<Item>) -> Seq<ItemIn>
    decreases items,
{
    if items.len() == 0 {
        Seq::empty()
    } else {
        ins_of(items.drop_last()) + (match items.last() {
            Item::In(m) => seq![m],
            _ => Seq::empty(),
        })
    }
}

/// The `Out` sections, in order of appearance.
pub open spec fn outs_of(items: Seq<Item>) -> Seq<ItemOut>
    decreases items,
{
    if items.len() == 0 {
        Seq::empty()
    } else {
        outs_of(items.drop_last()) + (match items.last() {
            Item::Out(m) => seq![m],
            _ => Seq::empty(),
        })
    }
}

/// The `Args` sections, in order of appearance.
pub open spec fn argss_of(items: Seq<Item>) -> Seq<ItemArgs>
    decreases items,
{
    if items.len() == 0 {
        Seq::empty()
    } else {
        argss_of(items.drop_last()) + (match items.last() {
            Item::Args(m) => seq![m],
            _ => Seq::empty(),
        })
    }
}

/// The equations, in order of appearance.
pub open spec fn frp_stmts_of(items: Seq<Item>) -> Seq<ItemFrpStmt>
    decreases items,
{
    if items.len() == 0 {
        Seq::empty()
    } else {
        frp_stmts_of(items.drop_last()) + (match items.last() {
            Item::FrpStmt(m) => seq![m],
            _ => Seq::empty(),
        })
    }
}

/// The declarations, in order of appearance.
pub open spec fn decls_of(items: Seq<Item>) -> Seq<ItemDeclaration>
    decreases items,
{
    if items.len() == 0 {
        Seq::empty()
    } else {
        decls_of(items.drop_last()) + (match items.last() {
            Item::Declaration(m) => seq![m],
            _ => Seq::empty(),
        })
    }
}

/// Exactly one module header, one `In`, one `Out`, and at most one
/// `Args` section.
pub open spec fn sections_ok(items: Seq<Item>) -> bool {
    &&& mods_of(items).len() == 1
    &&& ins_of(items).len() == 1
    &&& outs_of(items).len() == 1
    &&& argss_of(items).len() <= 1
}

/// The optional `Args` section an accepted program resolves to.
pub open spec fn args_opt_of(items: Seq<Item>) -> Option<ItemArgs> {
    if argss_of(items).len() == 1 {
        Some(argss_of(items)[0])
    } else {
        None
    }
}

/// The compiled program: its sections and the ordered evaluation plan.
#[derive(Debug, PartialEq)]
pub struct LrfrpIR {
    pub module: ItemMod,
    pub input: ItemIn,
    pub output: ItemOut,
    pub args: Option<ItemArgs>,
    pub declarations: Vec<ItemDeclaration>,
    pub body: OrderedStmts,
}

impl LrfrpIR {
    /// Compile a program: split the sections, run the semantic analysis,
    /// and hand back the ordered evaluation plan.  Succeeds exactly when
    /// the sections are well-formed and the analysis accepts the program.
    pub fn from_ast(ast: Ast) -> (r: Result<LrfrpIR, Vec<Error>>)
        requires
            decls_supported(decls_of(ast.items@)),
        ensures
            r matches Ok(ir) ==> {
                &&& sections_ok(ast.items@)
                &&& ir.module == mods_of(ast.items@)[0]
                &&& ir.input == ins_of(ast.items@)[0]
                &&& ir.output == outs_of(ast.items@)[0]
                &&& ir.args == args_opt_of(ast.items@)
                &&& ir.declarations@ == decls_of(ast.items@)
                &&& deps_check_ok(
                    ir.input,
                    ir.output,
                    ir.args,
                    decls_of(ast.items@),
                    frp_stmts_of(ast.items@),
                )
                &&& plan_post(ir.body, frp_stmts_of(ast.items@))
            },
            r matches Err(es) ==> es@.len() > 0 && ({
                ||| (!sections_ok(ast.items@) && es@.len() == 1 && (es@[0] matches
                    Error::DuplicatedItem(_) || es@[0] matches Error::ItemNotFound(_)))
                ||| (sections_ok(ast.items@) && !deps_check_ok(
                    ins_of(ast.items@)[0],
                    outs_of(ast.items@)[0],
                    args_opt_of(ast.items@),
                    decls_of(ast.items@),
                    frp_stmts_of(ast.items@),
                ) && deps_err(
                    es@,
                    ins_of(ast.items@)[0],
                    outs_of(ast.items@)[0],
                    args_opt_of(ast.items@),
                    decls_of(ast.items@),
                    frp_stmts_of(ast.items@),
                ))
            }),
    {
        let ghost orig = ast.items@;
        let mut rest = ast.items;
        let mut module: Option<ItemMod> = None;
        let mut input: Option<ItemIn> = None;
        let mut output: Option<ItemOut> = None;
        let mut args: Option<ItemArgs> = None;
        let mut stmts_rev: Vec<ItemFrpStmt> = Vec::new();
        let mut decls_rev: Vec<ItemDeclaration> = Vec::new();
        while rest.len() > 0
            invariant
                orig == ast.items@,
                mods_of(orig) == mods_of(rest@) + (match module {
                    Some(m) => seq![m],
                    None => Seq::<ItemMod>::empty(),
                }),
                ins_of(orig) == ins_of(rest@) + (match input {
                    Some(m) => seq![m],
                    None => Seq::<ItemIn>::empty(),
                }),
                outs_of(orig) == outs_of(rest@) + (match output {
                    Some(m) => seq![m],
                    None => Seq::<ItemOut>::empty(),
                }),
                argss_of(orig) == argss_of(rest@) + (match args {
                    Some(m) => seq![m],
                    None => Seq::<ItemArgs>::empty(),
                }),
                frp_stmts_of(orig) == frp_stmts_of(rest@) + stmts_rev@.reverse(),
                decls_of(orig) == decls_of(rest@) + decls_rev@.reverse(),
            decreases rest@.len(),
        {
            let ghost pre = rest@;
            let s = match rest.pop() {
                Some(s) => s,
                None => {
                    proof {
                        assert(false);
                    }
                    unreached()
                },
            };
            proof {
                assert(rest@ =~= pre.drop_last());
                assert(pre.last() == s);
            }
            match s {
                Item::Mod(m) => {
                    if module.is_some() {
                        proof {
                            assert(mods_of(pre) =~= mods_of(rest@) + seq![m]);
                            assert(mods_of(orig).len() >= 2);
                            assert(!sections_ok(orig));
                        }
                        let mut es: Vec<Error> = Vec::new();
                        es.push(Error::DuplicatedItem(String::from_str("mod")));
                        return Err(es);
                    }
                    module = Some(m);
                    proof {
                        assert(mods_of(pre) =~= mods_of(rest@) + seq![m]);
                        assert(ins_of(pre) =~= ins_of(rest@));
                        assert(outs_of(pre) =~= outs_of(rest@));
                        assert(argss_of(pre) =~= argss_of(rest@));
                        assert(frp_stmts_of(pre) =~= frp_stmts_of(rest@));
                        assert(decls_of(pre) =~= decls_of(rest@));
                    }
                },
                Item::In(m) => {
                    if input.is_some() {
                        proof {
                            assert(ins_of(pre) =~= ins_of(rest@) + seq![m]);
                            assert(ins_of(orig).len() >= 2);
                            assert(!sections_ok(orig));
                        }
                        let mut es: Vec<Error> = Vec::new();
                        es.push(Error::DuplicatedItem(String::from_str("In")));
                        return Err(es);
                    }
                    input = Some(m);
                    proof {
                        assert(ins_of(pre) =~= ins_of(rest@) + seq![m]);
                        assert(mods_of(pre) =~= mods_of(rest@));
                        assert(outs_of(pre) =~= outs_of(rest@));
                        assert(argss_of(pre) =~= argss_of(rest@));
                        assert(frp_stmts_of(pre) =~= frp_stmts_of(rest@));
                        assert(decls_of(pre) =~= decls_of(rest@));
                    }
                },
                Item::Out(m) => {
                    if output.is_some() {
                        proof {
                            assert(outs_of(pre) =~= outs_of(rest@) + seq![m]);
                            assert(outs_of(orig).len() >= 2);
                            assert(!sections_ok(orig));
                        }
                        let mut es: Vec<Error> = Vec::new();
                        es.push(Error::DuplicatedItem(String::from_str("Out")));
                        return Err(es);
                    }
                    output = Some(m);
                    proof {
                        assert(outs_of(pre) =~= outs_of(rest@) + seq![m]);
                        assert(mods_of(pre) =~= mods_of(rest@));
                        assert(ins_of(pre) =~= ins_of(rest@));
                        assert(argss_of(pre) =~= argss_of(rest@));
                        assert(frp_stmts_of(pre) =~= frp_stmts_of(rest@));
                        assert(decls_of(pre) =~= decls_of(rest@));
                    }
                },
                Item::Args(m) => {
                    if args.is_some() {
                        proof {
                            assert(argss_of(pre) =~= argss_of(rest@) + seq![m]);
                            assert(argss_of(orig).len() >= 2);
                            assert(!sections_ok(orig));
                        }
                        let mut es: Vec<Error> = Vec::new();
                        es.push(Error::DuplicatedItem(String::from_str("Args")));
                        return Err(es);
                    }
                    args = Some(m);
                    proof {
                        assert(argss_of(pre) =~= argss_of(rest@) + seq![m]);
                        assert(mods_of(pre) =~= mods_of(rest@));
                        assert(ins_of(pre) =~= ins_of(rest@));
                        assert(outs_of(pre) =~= outs_of(rest@));
                        assert(frp_stmts_of(pre) =~= frp_stmts_of(rest@));
                        assert(decls_of(pre) =~= decls_of(rest@));
                    }
                },
                Item::FrpStmt(f) => {
                    let ghost sr = stmts_rev@;
                    stmts_rev.push(f);
                    proof {
                        assert(frp_stmts_of(pre) =~= frp_stmts_of(rest@) + seq![f]);
                        assert(stmts_rev@.reverse() =~= seq![f] + sr.reverse());
                        assert(frp_stmts_of(rest@) + stmts_rev@.reverse() =~= frp_stmts_of(pre)
                            + sr.reverse());
                        assert(mods_of(pre) =~= mods_of(rest@));
                        assert(ins_of(pre) =~= ins_of(rest@));
                        assert(outs_of(pre) =~= outs_of(rest@));
                        assert(argss_of(pre) =~= argss_of(rest@));
                        assert(decls_of(pre) =~= decls_of(rest@));
                    }
                },
                Item::Declaration(d) => {
                    let ghost dr = decls_rev@;
                    decls_rev.push(d);
                    proof {
                        assert(decls_of(pre) =~= decls_of(rest@) + seq![d]);
                        assert(decls_rev@.reverse() =~= seq![d] + dr.reverse());
                        assert(decls_of(rest@) + decls_rev@.reverse() =~= decls_of(pre)
                            + dr.reverse());
                        assert(mods_of(pre) =~= mods_of(rest@));
                        assert(ins_of(pre) =~= ins_of(rest@));
                        assert(outs_of(pre) =~= outs_of(rest@));
                        assert(argss_of(pre) =~= argss_of(rest@));
                        assert(frp_stmts_of(pre) =~= frp_stmts_of(rest@));
                    }
                },
            }
        }
        proof {
            assert(mods_of(rest@) =~= Seq::<ItemMod>::empty());
            assert(ins_of(rest@) =~= Seq::<ItemIn>::empty());
            assert(outs_of(rest@) =~= Seq::<ItemOut>::empty());
            assert(argss_of(rest@) =~= Seq::<ItemArgs>::empty());
            assert(frp_stmts_of(rest@) =~= Seq::<ItemFrpStmt>::empty());
            assert(decls_of(rest@) =~= Seq::<ItemDeclaration>::empty());
        }
        let module = match module {
            Some(m) => m,
            None => {
                proof {
                    assert(mods_of(orig) =~= Seq::<ItemMod>::empty());
                }
                let mut es: Vec<Error> = Vec::new();
                es.push(Error::ItemNotFound(String::from_str("mod")));
                return Err(es);
            },
        };
        let input = match input {
            Some(m) => m,
            None => {
                proof {
                    assert(ins_of(orig) =~= Seq::<ItemIn>::empty());
                }
                let mut es: Vec<Error> = Vec::new();
                es.push(Error::ItemNotFound(String::from_str("In")));
                return Err(es);
            },
        };
        let output = match output {
            Some(m) => m,
            None => {
                proof {
                    assert(outs_of(orig) =~= Seq::<ItemOut>::empty());
                }
                let mut es: Vec<Error> = Vec::new();
                es.push(Error::ItemNotFound(String::from_str("Out")));
                return Err(es);
            },
        };
        // restore the source order of the equations and declarations
        let mut frp_stmts: Vec<ItemFrpStmt> = Vec::new();
        while stmts_rev.len() > 0
            invariant
                orig == ast.items@,
                frp_stmts_of(orig) == frp_stmts@ + stmts_rev@.reverse(),
            decreases stmts_rev@.len(),
        {
            let ghost pre = stmts_rev@;
            let f = match stmts_rev.pop() {
                Some(f) => f,
                None => {
                    proof {
                        assert(false);
                    }
                    unreached()
                },
            };
            frp_stmts.push(f);
            proof {
                assert(pre.reverse()[0] == f);
                assert(stmts_rev@.reverse() =~= pre.reverse().drop_first());
                assert(frp_stmts@ + stmts_rev@.reverse() =~= frp_stmts_of(orig));
            }
        }
        let mut declarations: Vec<ItemDeclaration> = Vec::new();
        while decls_rev.len() > 0
            invariant
                orig == ast.items@,
                decls_of(orig) == declarations@ + decls_rev@.reverse(),
            decreases decls_rev@.len(),
        {
            let ghost pre = decls_rev@;
            let d = match decls_rev.pop() {
                Some(d) => d,
                None => {
                    proof {
                        assert(false);
                    }
                    unreached()
                },
            };
            declarations.push(d);
            proof {
                assert(pre.reverse()[0] == d);
                assert(decls_rev@.reverse() =~= pre.reverse().drop_first());
                assert(declarations@ + decls_rev@.reverse() =~= decls_of(orig));
            }
        }
        proof {
            assert(frp_stmts@ =~= frp_stmts_of(orig));
            assert(declarations@ =~= decls_of(orig));
            assert(ins_of(orig) =~= seq![input]);
            assert(outs_of(orig) =~= seq![output]);
            assert(mods_of(orig) =~= seq![module]);
            assert(ins_of(orig)[0] == input);
            assert(outs_of(orig)[0] == output);
            if args is Some {
                assert(argss_of(orig) =~= seq![args->0]);
                assert(args_opt_of(orig) == args);
            } else {
                assert(argss_of(orig) =~= Seq::<ItemArgs>::empty());
                assert(args_opt_of(orig) is None);
            }
            assert(sections_ok(orig));
        }
        let body = match deps_check(&input, &output, &args, &declarations, frp_stmts) {
            Ok(os) => os,
            Err(es) => {
                return Err(es);
            },
        };
        Ok(LrfrpIR { module, input, output, args, declarations, body })
    }
}

} // verus!
