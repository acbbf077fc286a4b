//! The `pdfl doc` command: documentation of a script, from its syntax tree
//! — the profile, the constants, and for each check its tags and what it
//! validates (the assert messages and the require conditions), in Markdown
//! or in HTML.

use vstd::prelude::*;
use crate::ast::{
    args_view, block_view, expr_text, exprs_view, lemma_args_view, lemma_parts_view,
    lemma_stmts_view, parts_text, parts_view, stmts_view, strings_view, Arg, Block, Expr,
    SpecArg, SpecExpr, SpecStmt, SpecStrPart, Stmt, StrPart,
};
use crate::text::{nat_text, push_str};

verus! {

/// Whether a name starts with `fix::`.
pub open spec fn is_fix_name(name: Seq<char>) -> bool {
    name.len() >= 5 && name.take(5) == "fix::"@
}

/// Whether an expression calls a `fix::` operation: in a call's name, its
/// arguments, the expression statements of its block, or its receiver; or
/// in either side of an operator.
pub open spec fn expr_uses_fix(e: SpecExpr) -> bool
    decreases e,
{
    match e {
        SpecExpr::Call { recv, name, args, block } => {
            ||| is_fix_name(name)
            ||| args_use_fix(args)
            ||| (match block {
                Some(b) => body_uses_fix(b.body),
                None => false,
            })
            ||| (match recv {
                Some(r) => expr_uses_fix(*r),
                None => false,
            })
        },
        SpecExpr::Binary { left, right, .. } => expr_uses_fix(*left) || expr_uses_fix(*right),
        SpecExpr::Unary { expr, .. } => expr_uses_fix(*expr),
        _ => false,
    }
}

/// Some argument's value calls `fix::`.
pub open spec fn args_use_fix(args: Seq<SpecArg>) -> bool
    decreases args,
{
    if args.len() == 0 {
        false
    } else {
        expr_uses_fix(args[0].value) || args_use_fix(args.drop_first())
    }
}

/// Some expression statement of a block body calls `fix::`.
pub open spec fn body_uses_fix(body: Seq<SpecStmt>) -> bool
    decreases body,
{
    if body.len() == 0 {
        false
    } else {
        (match body[0] {
            SpecStmt::Expr(e) => expr_uses_fix(e),
            _ => false,
        }) || body_uses_fix(body.drop_first())
    }
}

/// What one assert or require validates: its message with the condition,
/// or the condition alone.
pub open spec fn validation_text(message: Option<SpecExpr>, source: Seq<char>) -> Seq<char> {
    match message {
        Some(SpecExpr::Str(parts)) => parts_text(parts) + " *(condition: `"@ + source + "`)*"@,
        _ => "`"@ + source + "`"@,
    }
}

/// The validations of a body, appended to `out`, descending into the blocks
/// of call statements; and whether `fix::` was seen along the way.
pub open spec fn collect_validations(stmts: Seq<SpecStmt>, out: Seq<Seq<char>>, fix: bool) -> (Seq<Seq<char>>, bool)
    decreases stmts,
{
    if stmts.len() == 0 {
        (out, fix)
    } else {
        let next = match stmts[0] {
            SpecStmt::Assert { message, source, .. } => (out.push(validation_text(message, source)), fix),
            SpecStmt::Expr(e) => {
                let f = fix || expr_uses_fix(e);
                match e {
                    SpecExpr::Call { block, .. } => match block {
                        Some(b) => collect_validations(b.body, out, f),
                        None => (out, f),
                    },
                    _ => (out, f),
                }
            },
            SpecStmt::Assign { value, .. } => (out, fix || expr_uses_fix(value)),
            SpecStmt::Const { value, .. } => (out, fix || expr_uses_fix(value)),
            _ => (out, fix),
        };
        collect_validations(stmts.drop_first(), next.0, next.1)
    }
}

/// One check as the documentation shows it.
#[verifier::ext_equal]
pub struct CheckDoc {
    pub name: Seq<char>,
    pub tags: Seq<Seq<char>>,
    pub validations: Seq<Seq<char>>,
}

/// What the documentation of a script is made of.
#[verifier::ext_equal]
pub struct ScriptDoc {
    pub profile: Option<Seq<char>>,
    pub consts: Seq<(Seq<char>, Seq<char>)>,
    pub functions: Seq<Seq<char>>,
    pub imports: Seq<Seq<char>>,
    pub checks: Seq<CheckDoc>,
    pub uses_fix: bool,
}

/// Names joined by `, `.
pub open spec fn join_comma(names: Seq<Seq<char>>) -> Seq<char>
    decreases names.len(),
{
    if names.len() == 0 {
        Seq::empty()
    } else if names.len() == 1 {
        names[0]
    } else {
        join_comma(names.drop_last()) + ", "@ + names.last()
    }
}

/// The documentation gathered from `stmts` on top of `doc`, in order; a
/// profile's body is walked in place.
pub open spec fn walk(stmts: Seq<SpecStmt>, doc: ScriptDoc) -> ScriptDoc
    decreases stmts,
{
    if stmts.len() == 0 {
        doc
    } else {
        let next = match stmts[0] {
            SpecStmt::Profile { name, body } => walk(body, ScriptDoc { profile: Some(name), ..doc }),
            SpecStmt::Check { name, tags, body, .. } => {
                let (v, f) = collect_validations(body, Seq::empty(), doc.uses_fix);
                ScriptDoc {
                    checks: doc.checks.push(CheckDoc { name, tags, validations: v }),
                    uses_fix: f,
                    ..doc
                }
            },
            SpecStmt::Const { name, value } => ScriptDoc {
                consts: doc.consts.push((name, expr_text(value))),
                uses_fix: doc.uses_fix || expr_uses_fix(value),
                ..doc
            },
            SpecStmt::Function { name, params, body } => ScriptDoc {
                functions: doc.functions.push(name + "("@ + join_comma(params) + ")"@),
                uses_fix: collect_validations(body, Seq::empty(), doc.uses_fix).1,
                ..doc
            },
            SpecStmt::Import { path } => ScriptDoc { imports: doc.imports.push(path), ..doc },
            SpecStmt::Rule { name, pages, body } => {
                let (v, f) = collect_validations(body, Seq::empty(), doc.uses_fix);
                let scope = if pages is Some {
                    " (selected pages)"@
                } else {
                    " (all pages)"@
                };
                ScriptDoc {
                    checks: doc.checks.push(
                        CheckDoc { name: name + " — rule"@ + scope, tags: Seq::empty(), validations: v },
                    ),
                    uses_fix: f,
                    ..doc
                }
            },
            SpecStmt::Expr(e) => if expr_uses_fix(e) {
                ScriptDoc { uses_fix: true, ..doc }
            } else {
                doc
            },
            _ => doc,
        };
        walk(stmts.drop_first(), next)
    }
}

/// The documentation of a whole program.
pub open spec fn collect(program: Seq<SpecStmt>) -> ScriptDoc {
    walk(
        program,
        ScriptDoc {
            profile: None,
            consts: Seq::empty(),
            functions: Seq::empty(),
            imports: Seq::empty(),
            checks: Seq::empty(),
            uses_fix: false,
        },
    )
}

/// `- `x``, one line each.
pub open spec fn code_items(items: Seq<Seq<char>>) -> Seq<char>
    decreases items.len(),
{
    if items.len() == 0 {
        Seq::empty()
    } else {
        code_items(items.drop_last()) + "- `"@ + items.last() + "`\n"@
    }
}

/// The rows of the constants table.
pub open spec fn const_rows(consts: Seq<(Seq<char>, Seq<char>)>) -> Seq<char>
    decreases consts.len(),
{
    if consts.len() == 0 {
        Seq::empty()
    } else {
        const_rows(consts.drop_last()) + "| `"@ + consts.last().0 + "` | `"@ + consts.last().1
            + "` |\n"@
    }
}

/// Each tag in backquotes, joined by `, `.
pub open spec fn tag_list(tags: Seq<Seq<char>>) -> Seq<char>
    decreases tags.len(),
{
    if tags.len() == 0 {
        Seq::empty()
    } else if tags.len() == 1 {
        "`"@ + tags[0] + "`"@
    } else {
        tag_list(tags.drop_last()) + ", `"@ + tags.last() + "`"@
    }
}

/// `- validation`, one line each.
pub open spec fn plain_items(items: Seq<Seq<char>>) -> Seq<char>
    decreases items.len(),
{
    if items.len() == 0 {
        Seq::empty()
    } else {
        plain_items(items.drop_last()) + "- "@ + items.last() + "\n"@
    }
}

/// The section of one check.
pub open spec fn check_md(c: CheckDoc) -> Seq<char> {
    let tags = if c.tags.len() == 0 {
        Seq::empty()
    } else {
        " — tags: "@ + tag_list(c.tags)
    };
    "### "@ + c.name + tags + "\n\n"@ + if c.validations.len() == 0 {
        "(no direct validations)\n\n"@
    } else {
        plain_items(c.validations) + "\n"@
    }
}

/// The sections of the checks, in order.
pub open spec fn checks_md(cs: Seq<CheckDoc>) -> Seq<char>
    decreases cs.len(),
{
    if cs.len() == 0 {
        Seq::empty()
    } else {
        checks_md(cs.drop_last()) + check_md(cs.last())
    }
}

/// The title line.
pub open spec fn md_head(script_name: Seq<char>) -> Seq<char> {
    "# Documentation: "@ + script_name + "\n\n"@
}

/// The profile line, if there is a profile.
pub open spec fn md_profile(d: ScriptDoc) -> Seq<char> {
    match d.profile {
        Some(p) => "**Profile:** "@ + p + "\n\n"@,
        None => Seq::empty(),
    }
}

/// The note that the script needs `pdfl fix`, if it does.
pub open spec fn md_fix(d: ScriptDoc) -> Seq<char> {
    if d.uses_fix {
        "> This script contains `fix::` operations — use it with the `pdfl fix` command.\n\n"@
    } else {
        Seq::empty()
    }
}

/// The imports section, if there are imports.
pub open spec fn md_imports(d: ScriptDoc) -> Seq<char> {
    if d.imports.len() == 0 {
        Seq::empty()
    } else {
        "## Imports\n\n"@ + code_items(d.imports) + "\n"@
    }
}

/// The constants table, if there are constants.
pub open spec fn md_consts(d: ScriptDoc) -> Seq<char> {
    if d.consts.len() == 0 {
        Seq::empty()
    } else {
        "## Constants\n\n| Name | Value |\n|---|---|\n"@ + const_rows(d.consts) + "\n"@
    }
}

/// The functions section, if there are functions.
pub open spec fn md_functions(d: ScriptDoc) -> Seq<char> {
    if d.functions.len() == 0 {
        Seq::empty()
    } else {
        "## Functions\n\n"@ + code_items(d.functions) + "\n"@
    }
}

/// The heading of the checks, with their number.
pub open spec fn md_checks_head(d: ScriptDoc) -> Seq<char> {
    "## Checks ("@ + nat_text(d.checks.len()) + ")\n\n"@
}

/// The Markdown document.
pub open spec fn spec_markdown(script_name: Seq<char>, d: ScriptDoc) -> Seq<char> {
    md_head(script_name) + md_profile(d) + md_fix(d) + md_imports(d) + md_consts(d) + md_functions(
        d,
    ) + md_checks_head(d) + checks_md(d.checks)
}

// ---- executable side ----

fn name_is_fix(name: &String) -> (r: bool)
    ensures
        r == is_fix_name(name@),
{
    let c = crate::text::chars_of(name.as_str());
    if c.len() < 5 {
        return false;
    }
    let first = crate::text::slice_chars(&c, 0, 5);
    assert(c@.subrange(0, 5) =~= c@.take(5));
    crate::text::chars_eq_str(&first, "fix::")
}

/// Whether an expression calls `fix::`.
#[verifier::spinoff_prover]
fn uses_fix(e: &Expr) -> (r: bool)
    ensures
        r == expr_uses_fix(e@),
    decreases e@,
{
    let ghost x = e@;
    match e {
        Expr::Call { recv, name, args, block } => {
            if name_is_fix(name) {
                return true;
            }
            let ghost av = args_view(args@);
            proof {
                lemma_args_view(args@);
                assert(av.skip(0) =~= av);
            }
            let mut i: usize = 0;
            while i < args.len()
                invariant
                    x == e@,
                    x is Call,
                    x->Call_args == av,
                    av == args_view(args@),
                    av.len() == args@.len(),
                    forall|k: int| 0 <= k < args@.len() ==> #[trigger] av[k] == crate::ast::arg_view(args@[k]),
                    i <= args.len(),
                    args_use_fix(av) == args_use_fix(av.skip(i as int)),
                decreases args.len() - i,
            {
                assert(av.skip(i as int)[0] == av[i as int]);
                assert(av.skip(i as int).drop_first() =~= av.skip(i + 1));
                proof {
                    assert(decreases_to!(x => x->Call_args));
                    assert(decreases_to!(av => av[i as int]));
                    assert(decreases_to!(av[i as int] => av[i as int].value));
                }
                if uses_fix(&args[i].value) {
                    return true;
                }
                i = i + 1;
            }
            assert(av.skip(args@.len() as int) =~= Seq::<SpecArg>::empty());
            match block {
                Some(b) => {
                    let ghost bv = stmts_view(b.body@);
                    proof {
                        lemma_stmts_view(b.body@);
                        assert(bv.skip(0) =~= bv);
                    }
                    let mut j: usize = 0;
                    while j < b.body.len()
                        invariant
                            x == e@,
                            x is Call,
                            x->Call_block == Some(block_view(*b)),
                            bv == stmts_view(b.body@),
                            bv.len() == b.body@.len(),
                            forall|k: int| 0 <= k < b.body@.len() ==> #[trigger] bv[k] == crate::ast::stmt_view(b.body@[k]),
                            j <= b.body.len(),
                            body_uses_fix(bv) == body_uses_fix(bv.skip(j as int)),
                        decreases b.body.len() - j,
                    {
                        assert(bv.skip(j as int)[0] == bv[j as int]);
                        assert(bv.skip(j as int).drop_first() =~= bv.skip(j + 1));
                        match &b.body[j] {
                            Stmt::Expr(inner) => {
                                proof {
                                    assert(decreases_to!(x => x->Call_block));
                                    assert(decreases_to!(x->Call_block => x->Call_block->0));
                                    assert(decreases_to!(x->Call_block->0 => x->Call_block->0.body));
                                    assert(decreases_to!(bv => bv[j as int]));
                                    assert(decreases_to!(bv[j as int] => bv[j as int]->Expr_0));
                                }
                                if uses_fix(inner) {
                                    return true;
                                }
                            },
                            _ => {},
                        }
                        j = j + 1;
                    }
                    assert(bv.skip(b.body@.len() as int) =~= Seq::<SpecStmt>::empty());
                },
                None => {},
            }
            match recv {
                Some(r) => {
                    proof {
                        assert(decreases_to!(x => x->Call_recv));
                        assert(decreases_to!(x->Call_recv => x->Call_recv->0));
                    }
                    uses_fix(r)
                },
                None => false,
            }
        },
        Expr::Binary { left, right, .. } => {
            proof {
                assert(decreases_to!(x => x->Binary_left));
                assert(decreases_to!(x => x->Binary_right));
            }
            uses_fix(left) || uses_fix(right)
        },
        Expr::Unary { expr, .. } => {
            proof {
                assert(decreases_to!(x => x->Unary_expr));
            }
            uses_fix(expr)
        },
        _ => false,
    }
}

/// Appends the text of the pieces of a string.
#[verifier::spinoff_prover]
fn push_parts_text(out: &mut Vec<char>, parts: &Vec<StrPart>)
    ensures
        final(out)@ == old(out)@ + parts_text(parts_view(parts@)),
{
    let ghost pv = parts_view(parts@);
    proof {
        lemma_parts_view(parts@);
        assert(pv.skip(0) =~= pv);
    }
    let mut i: usize = 0;
    while i < parts.len()
        invariant
            pv == parts_view(parts@),
            pv.len() == parts@.len(),
            forall|k: int| 0 <= k < parts@.len() ==> #[trigger] pv[k] == crate::ast::part_view(parts@[k]),
            i <= parts.len(),
            out@ + parts_text(pv.skip(i as int)) == old(out)@ + parts_text(pv),
        decreases parts.len() - i,
    {
        assert(pv.skip(i as int)[0] == pv[i as int]);
        assert(pv.skip(i as int).drop_first() =~= pv.skip(i + 1));
        let ghost before = out@;
        match &parts[i] {
            StrPart::Lit(l) => {
                push_str(out, l.as_str());
            },
            StrPart::Interp(e) => {
                out.push('#');
                out.push('{');
                crate::ast::push_expr_text(out, e);
                out.push('}');
            },
        }
        let ghost first = match pv[i as int] {
            SpecStrPart::Lit(l) => l,
            SpecStrPart::Interp(e) => seq!['#', '{'] + expr_text(e) + seq!['}'],
        };
        assert(out@ =~= before + first);
        assert(before + parts_text(pv.skip(i as int)) =~= before + first + parts_text(pv.skip(i + 1)));
        i = i + 1;
    }
    assert(pv.skip(parts@.len() as int) =~= Seq::<SpecStrPart>::empty());
}

fn validation(message: &Option<Expr>, source: &String) -> (r: String)
    ensures
        r@ == validation_text(
            match message {
                Some(m) => Some(m@),
                None => None,
            },
            source@,
        ),
{
    let mut out: Vec<char> = Vec::new();
    match message {
        Some(Expr::Str(parts)) => {
            push_parts_text(&mut out, parts);
            push_str(&mut out, " *(condition: `");
            push_str(&mut out, source.as_str());
            push_str(&mut out, "`)*");
        },
        _ => {
            push_str(&mut out, "`");
            push_str(&mut out, source.as_str());
            push_str(&mut out, "`");
        },
    }
    assert(out@ =~= validation_text(
        match message {
            Some(m) => Some(m@),
            None => None,
        },
        source@,
    ));
    crate::text::string_of(&out)
}

/// Appends the validations of `stmts` to `out`; returns whether `fix::` was
/// seen (or `fix` already was).
#[verifier::spinoff_prover]
fn collect_into(stmts: &Vec<Stmt>, out: &mut Vec<String>, fix: bool) -> (r: bool)
    ensures
        collect_validations(stmts_view(stmts@), strings_view(old(out)@), fix) == (
            strings_view(final(out)@),
            r,
        ),
    decreases stmts_view(stmts@),
{
    let ghost sv = stmts_view(stmts@);
    proof {
        lemma_stmts_view(stmts@);
        assert(sv.skip(0) =~= sv);
    }
    let mut f = fix;
    let mut i: usize = 0;
    while i < stmts.len()
        invariant
            sv == stmts_view(stmts@),
            sv.len() == stmts@.len(),
            forall|k: int| 0 <= k < stmts@.len() ==> #[trigger] sv[k] == crate::ast::stmt_view(stmts@[k]),
            i <= stmts.len(),
            collect_validations(sv.skip(i as int), strings_view(out@), f) == collect_validations(
                sv,
                strings_view(old(out)@),
                fix,
            ),
        decreases stmts.len() - i,
    {
        let ghost s0 = sv[i as int];
        assert(sv.skip(i as int)[0] == s0);
        assert(sv.skip(i as int).drop_first() =~= sv.skip(i + 1));
        let ghost before = strings_view(out@);
        match &stmts[i] {
            Stmt::Assert { message, source, .. } => {
                let v = validation(message, source);
                out.push(v);
                assert(strings_view(out@) =~= before.push(v@));
            },
            Stmt::Expr(e) => {
                assert(s0 == SpecStmt::Expr(e@));
                f = f || uses_fix(e);
                match e {
                    Expr::Call { block, .. } => match block {
                        Some(b) => {
                            proof {
                                let x = s0->Expr_0;
                                assert(x == e@);
                                assert(x->Call_block == Some(block_view(*b)));
                                assert(x->Call_block->0.body == stmts_view(b.body@));
                                assert(decreases_to!(sv => sv[i as int]));
                                assert(decreases_to!(sv[i as int] => x));
                                assert(decreases_to!(x => x->Call_block));
                                assert(decreases_to!(x->Call_block => x->Call_block->0));
                                assert(decreases_to!(x->Call_block->0 => x->Call_block->0.body));
                            }
                            f = collect_into(&b.body, out, f);
                        },
                        None => {},
                    },
                    _ => {},
                }
            },
            Stmt::Assign { value, .. } => {
                f = f || uses_fix(value);
            },
            Stmt::Const { value, .. } => {
                f = f || uses_fix(value);
            },
            _ => {},
        }
        i = i + 1;
    }
    assert(sv.skip(stmts@.len() as int) =~= Seq::<SpecStmt>::empty());
    f
}

/// Executable form of a check's documentation.
struct CheckEntry {
    name: Vec<char>,
    tags: Vec<String>,
    validations: Vec<String>,
}

/// Executable form of a script's documentation.
struct DocEntries {
    profile: Option<Vec<char>>,
    consts: Vec<(Vec<char>, Vec<char>)>,
    functions: Vec<Vec<char>>,
    imports: Vec<Vec<char>>,
    checks: Vec<CheckEntry>,
    uses_fix: bool,
}

spec fn check_entry_view(c: CheckEntry) -> CheckDoc {
    CheckDoc { name: c.name@, tags: strings_view(c.tags@), validations: strings_view(c.validations@) }
}

spec fn doc_view(d: DocEntries) -> ScriptDoc {
    ScriptDoc {
        profile: match d.profile {
            Some(p) => Some(p@),
            None => None,
        },
        consts: d.consts@.map_values(|p: (Vec<char>, Vec<char>)| (p.0@, p.1@)),
        functions: crate::escape::char_vecs_view(d.functions@),
        imports: crate::escape::char_vecs_view(d.imports@),
        checks: d.checks@.map_values(|c: CheckEntry| check_entry_view(c)),
        uses_fix: d.uses_fix,
    }
}

fn chars_of_string(s: &String) -> (r: Vec<char>)
    ensures
        r@ == s@,
{
    crate::text::chars_of(s.as_str())
}

fn clone_strings(v: &Vec<String>) -> (r: Vec<String>)
    ensures
        strings_view(r@) == strings_view(v@),
{
    let mut r: Vec<String> = Vec::new();
    let mut i: usize = 0;
    while i < v.len()
        invariant
            i <= v@.len(),
            strings_view(r@) == strings_view(v@).take(i as int),
        decreases v@.len() - i,
    {
        let ghost before = strings_view(r@);
        let s = crate::text::owned(v[i].as_str());
        r.push(s);
        assert(strings_view(r@) =~= before.push(s@));
        assert(strings_view(v@).take(i + 1) =~= strings_view(v@).take(i as int).push(v@[i as int]@));
        i = i + 1;
    }
    assert(strings_view(v@).take(v@.len() as int) =~= strings_view(v@));
    r
}

fn join_params(params: &Vec<String>, out: &mut Vec<char>)
    ensures
        final(out)@ == old(out)@ + join_comma(strings_view(params@)),
{
    let ghost pv = strings_view(params@);
    let mut i: usize = 0;
    while i < params.len()
        invariant
            i <= params@.len(),
            pv == strings_view(params@),
            out@ == old(out)@ + join_comma(pv.take(i as int)),
        decreases params@.len() - i,
    {
        assert(pv.take(i + 1).drop_last() =~= pv.take(i as int));
        assert(pv.take(i + 1).last() == params@[i as int]@);
        if i > 0 {
            push_str(out, ", ");
        } else {
            assert(pv.take(1) =~= seq![params@[0]@]);
        }
        push_str(out, params[i].as_str());
        i = i + 1;
    }
    assert(pv.take(params@.len() as int) =~= pv);
}

/// Walks `stmts` into `doc`.
#[verifier::spinoff_prover]
fn walk_into(stmts: &Vec<Stmt>, doc: &mut DocEntries)
    ensures
        doc_view(*final(doc)) == walk(stmts_view(stmts@), doc_view(*old(doc))),
    decreases stmts_view(stmts@),
{
    let ghost sv = stmts_view(stmts@);
    proof {
        lemma_stmts_view(stmts@);
        assert(sv.skip(0) =~= sv);
    }
    let mut i: usize = 0;
    while i < stmts.len()
        invariant
            sv == stmts_view(stmts@),
            sv.len() == stmts@.len(),
            forall|k: int| 0 <= k < stmts@.len() ==> #[trigger] sv[k] == crate::ast::stmt_view(stmts@[k]),
            i <= stmts.len(),
            walk(sv.skip(i as int), doc_view(*doc)) == walk(sv, doc_view(*old(doc))),
        decreases stmts.len() - i,
    {
        let ghost s0 = sv[i as int];
        assert(sv.skip(i as int)[0] == s0);
        assert(sv.skip(i as int).drop_first() =~= sv.skip(i + 1));
        let ghost before = doc_view(*doc);
        match &stmts[i] {
            Stmt::Profile { name, body } => {
                doc.profile = Some(chars_of_string(name));
                proof {
                    assert(decreases_to!(sv => sv[i as int]));
                    assert(decreases_to!(sv[i as int] => s0->Profile_body));
                }
                assert(doc_view(*doc) =~= ScriptDoc { profile: Some(name@), ..before });
                walk_into(body, doc);
            },
            Stmt::Check { name, tags, body, .. } => {
                let mut v: Vec<String> = Vec::new();
                assert(strings_view(v@) =~= Seq::<Seq<char>>::empty());
                let f = collect_into(body, &mut v, doc.uses_fix);
                let entry = CheckEntry { name: chars_of_string(name), tags: clone_strings(tags), validations: v };
                let ghost ev = check_entry_view(entry);
                doc.checks.push(entry);
                doc.uses_fix = f;
                assert(doc_view(*doc).checks =~= before.checks.push(ev));
                assert(doc_view(*doc) =~= ScriptDoc { checks: before.checks.push(ev), uses_fix: f, ..before });
            },
            Stmt::Const { name, value } => {
                let mut text: Vec<char> = Vec::new();
                crate::ast::push_expr_text(&mut text, value);
                let ghost tv = text@;
                doc.consts.push((chars_of_string(name), text));
                doc.uses_fix = doc.uses_fix || uses_fix(value);
                assert(doc_view(*doc).consts =~= before.consts.push((name@, tv)));
                assert(doc_view(*doc) =~= ScriptDoc {
                    consts: before.consts.push((name@, tv)),
                    uses_fix: doc.uses_fix,
                    ..before
                });
            },
            Stmt::Function { name, params, body } => {
                let mut sig: Vec<char> = chars_of_string(name);
                sig.push('(');
                join_params(params, &mut sig);
                sig.push(')');
                let ghost gv = sig@;
                assert(gv =~= name@ + "("@ + join_comma(strings_view(params@)) + ")"@) by {
                    reveal_strlit("(");
                    reveal_strlit(")");
                }
                doc.functions.push(sig);
                let mut scratch: Vec<String> = Vec::new();
                assert(strings_view(scratch@) =~= Seq::<Seq<char>>::empty());
                doc.uses_fix = collect_into(body, &mut scratch, doc.uses_fix);
                assert(doc_view(*doc).functions =~= before.functions.push(gv));
                assert(doc_view(*doc) =~= ScriptDoc {
                    functions: before.functions.push(gv),
                    uses_fix: doc.uses_fix,
                    ..before
                });
            },
            Stmt::Import { path } => {
                let p = chars_of_string(path);
                let ghost pv = p@;
                doc.imports.push(p);
                assert(doc_view(*doc).imports =~= before.imports.push(pv));
                assert(doc_view(*doc) =~= ScriptDoc { imports: before.imports.push(pv), ..before });
            },
            Stmt::Rule { name, pages, body } => {
                let mut v: Vec<String> = Vec::new();
                assert(strings_view(v@) =~= Seq::<Seq<char>>::empty());
                let f = collect_into(body, &mut v, doc.uses_fix);
                let mut n: Vec<char> = chars_of_string(name);
                push_str(&mut n, " — rule");
                if pages.is_some() {
                    push_str(&mut n, " (selected pages)");
                } else {
                    push_str(&mut n, " (all pages)");
                }
                let entry = CheckEntry { name: n, tags: Vec::new(), validations: v };
                let ghost ev = check_entry_view(entry);
                assert(strings_view(entry.tags@) =~= Seq::<Seq<char>>::empty());
                doc.checks.push(entry);
                doc.uses_fix = f;
                assert(doc_view(*doc).checks =~= before.checks.push(ev));
                assert(doc_view(*doc) =~= ScriptDoc { checks: before.checks.push(ev), uses_fix: f, ..before });
            },
            Stmt::Expr(e) => {
                if uses_fix(e) {
                    doc.uses_fix = true;
                    assert(doc_view(*doc) =~= ScriptDoc { uses_fix: true, ..before });
                }
            },
            _ => {},
        }
        i = i + 1;
    }
    assert(sv.skip(stmts@.len() as int) =~= Seq::<SpecStmt>::empty());
}


fn push_code_items(out: &mut Vec<char>, items: &Vec<Vec<char>>)
    ensures
        final(out)@ == old(out)@ + code_items(crate::escape::char_vecs_view(items@)),
{
    let ghost iv = crate::escape::char_vecs_view(items@);
    let mut i: usize = 0;
    while i < items.len()
        invariant
            i <= items@.len(),
            iv == crate::escape::char_vecs_view(items@),
            out@ == old(out)@ + code_items(iv.take(i as int)),
        decreases items@.len() - i,
    {
        assert(iv.take(i + 1).drop_last() =~= iv.take(i as int));
        assert(iv.take(i + 1).last() == items@[i as int]@);
        let ghost before = out@;
        push_str(out, "- `");
        crate::text::push_all(out, &items[i]);
        push_str(out, "`\n");
        assert(out@ =~= before + ("- `"@ + items@[i as int]@ + "`\n"@));
        i = i + 1;
    }
    assert(iv.take(items@.len() as int) =~= iv);
}

fn push_const_rows(out: &mut Vec<char>, consts: &Vec<(Vec<char>, Vec<char>)>)
    ensures
        final(out)@ == old(out)@ + const_rows(consts@.map_values(|p: (Vec<char>, Vec<char>)| (p.0@, p.1@))),
{
    let ghost cv = consts@.map_values(|p: (Vec<char>, Vec<char>)| (p.0@, p.1@));
    let mut i: usize = 0;
    while i < consts.len()
        invariant
            i <= consts@.len(),
            cv == consts@.map_values(|p: (Vec<char>, Vec<char>)| (p.0@, p.1@)),
            out@ == old(out)@ + const_rows(cv.take(i as int)),
        decreases consts@.len() - i,
    {
        assert(cv.take(i + 1).drop_last() =~= cv.take(i as int));
        assert(cv.take(i + 1).last() == (consts@[i as int].0@, consts@[i as int].1@));
        let ghost before = out@;
        push_str(out, "| `");
        crate::text::push_all(out, &consts[i].0);
        push_str(out, "` | `");
        crate::text::push_all(out, &consts[i].1);
        push_str(out, "` |\n");
        assert(out@ =~= before + ("| `"@ + consts@[i as int].0@ + "` | `"@ + consts@[i as int].1@
            + "` |\n"@));
        i = i + 1;
    }
    assert(cv.take(consts@.len() as int) =~= cv);
}

#[verifier::spinoff_prover]
#[verifier::rlimit(30)]
fn push_check(out: &mut Vec<char>, c: &CheckEntry)
    ensures
        final(out)@ == old(out)@ + check_md(check_entry_view(*c)),
{
    let ghost cv = check_entry_view(*c);
    push_str(out, "### ");
    crate::text::push_all(out, &c.name);
    let ghost after_name = out@;
    if c.tags.len() > 0 {
        push_str(out, " — tags: ");
        let ghost start = out@;
        let ghost tv = strings_view(c.tags@);
        let mut i: usize = 0;
        while i < c.tags.len()
            invariant
                i <= c.tags@.len(),
                tv == strings_view(c.tags@),
                out@ == start + tag_list(tv.take(i as int)),
            decreases c.tags@.len() - i,
        {
            assert(tv.take(i + 1).drop_last() =~= tv.take(i as int));
            assert(tv.take(i + 1).last() == c.tags@[i as int]@);
            let ghost before = out@;
            if i > 0 {
                push_str(out, ", `");
                push_str(out, c.tags[i].as_str());
                push_str(out, "`");
                assert(out@ =~= before + (", `"@ + c.tags@[i as int]@ + "`"@));
            } else {
                push_str(out, "`");
                push_str(out, c.tags[i].as_str());
                push_str(out, "`");
                assert(tv.take(1) =~= seq![c.tags@[0]@]);
                assert(out@ =~= before + ("`"@ + c.tags@[0]@ + "`"@));
            }
            i = i + 1;
        }
        assert(tv.take(c.tags@.len() as int) =~= tv);
    }
    let ghost after_tags = out@;
    push_str(out, "\n\n");
    let ghost after_head = out@;
    if c.validations.len() == 0 {
        push_str(out, "(no direct validations)\n\n");
    } else {
        let ghost start = out@;
        let ghost vv = strings_view(c.validations@);
        let mut i: usize = 0;
        while i < c.validations.len()
            invariant
                i <= c.validations@.len(),
                vv == strings_view(c.validations@),
                out@ == start + plain_items(vv.take(i as int)),
            decreases c.validations@.len() - i,
        {
            assert(vv.take(i + 1).drop_last() =~= vv.take(i as int));
            assert(vv.take(i + 1).last() == c.validations@[i as int]@);
            let ghost before = out@;
            push_str(out, "- ");
            push_str(out, c.validations[i].as_str());
            push_str(out, "\n");
            assert(out@ =~= before + ("- "@ + c.validations@[i as int]@ + "\n"@));
            i = i + 1;
        }
        assert(vv.take(c.validations@.len() as int) =~= vv);
        push_str(out, "\n");
    }
    assert(final(out)@ =~= old(out)@ + check_md(cv));
}

#[verifier::spinoff_prover]
#[verifier::rlimit(50)]
fn push_sections(out: &mut Vec<char>, doc: &DocEntries)
    ensures
        final(out)@ == old(out)@ + md_profile(doc_view(*doc)) + md_fix(doc_view(*doc)) + md_imports(
            doc_view(*doc),
        ) + md_consts(doc_view(*doc)) + md_functions(doc_view(*doc)),
{
    let ghost d = doc_view(*doc);
    let ghost a0 = out@;
    match &doc.profile {
        Some(p) => {
            push_str(out, "**Profile:** ");
            crate::text::push_all(out, p);
            push_str(out, "\n\n");
        },
        None => {},
    }
    assert(out@ =~= a0 + md_profile(d));
    let ghost a1 = out@;
    if doc.uses_fix {
        push_str(out, "> This script contains `fix::` operations — use it with the `pdfl fix` command.\n\n");
    }
    assert(out@ =~= a1 + md_fix(d));
    let ghost a2 = out@;
    if doc.imports.len() > 0 {
        push_str(out, "## Imports\n\n");
        push_code_items(out, &doc.imports);
        push_str(out, "\n");
    }
    assert(out@ =~= a2 + md_imports(d));
    let ghost a3 = out@;
    if doc.consts.len() > 0 {
        push_str(out, "## Constants\n\n| Name | Value |\n|---|---|\n");
        push_const_rows(out, &doc.consts);
        push_str(out, "\n");
    }
    assert(out@ =~= a3 + md_consts(d));
    let ghost a4 = out@;
    if doc.functions.len() > 0 {
        push_str(out, "## Functions\n\n");
        push_code_items(out, &doc.functions);
        push_str(out, "\n");
    }
    assert(out@ =~= a4 + md_functions(d));
}

/// The documentation of a script in Markdown.
#[verifier::rlimit(30)]
#[verifier::spinoff_prover]
pub fn markdown(script_name: &str, program: &Vec<Stmt>) -> (r: String)
    ensures
        r@ == spec_markdown(script_name@, collect(stmts_view(program@))),
{
    let mut doc = DocEntries {
        profile: None,
        consts: Vec::new(),
        functions: Vec::new(),
        imports: Vec::new(),
        checks: Vec::new(),
        uses_fix: false,
    };
    assert(doc_view(doc) =~= ScriptDoc {
        profile: None,
        consts: Seq::empty(),
        functions: Seq::empty(),
        imports: Seq::empty(),
        checks: Seq::empty(),
        uses_fix: false,
    });
    walk_into(program, &mut doc);
    let ghost d = doc_view(doc);
    let mut out: Vec<char> = Vec::new();
    push_str(&mut out, "# Documentation: ");
    push_str(&mut out, script_name);
    push_str(&mut out, "\n\n");
    assert(out@ =~= md_head(script_name@));
    push_sections(&mut out, &doc);
    let ghost a5 = out@;
    push_str(&mut out, "## Checks (");
    crate::text::push_usize(&mut out, doc.checks.len());
    push_str(&mut out, ")\n\n");
    assert(out@ =~= a5 + md_checks_head(d));
    let ghost a6 = out@;
    let ghost chv = d.checks;
    let mut i: usize = 0;
    while i < doc.checks.len()
        invariant
            i <= doc.checks@.len(),
            chv == doc.checks@.map_values(|c: CheckEntry| check_entry_view(c)),
            out@ == a6 + checks_md(chv.take(i as int)),
        decreases doc.checks@.len() - i,
    {
        assert(chv.take(i + 1).drop_last() =~= chv.take(i as int));
        assert(chv.take(i + 1).last() == check_entry_view(doc.checks@[i as int]));
        push_check(&mut out, &doc.checks[i]);
        i = i + 1;
    }
    assert(chv.take(doc.checks@.len() as int) =~= chv);
    crate::text::string_of(&out)
}


// ---- HTML ----

/// `s` starts with `p`.
pub open spec fn starts(s: Seq<char>, p: Seq<char>) -> bool {
    s.len() >= p.len() && s.take(p.len() as int) == p
}

/// `s` contains `---`.
pub open spec fn has_rule(s: Seq<char>) -> bool {
    exists|i: int| 0 <= i && i + 3 <= s.len() && #[trigger] s.subrange(i, i + 3) == "---"@
}

/// A line without its trailing carriage return.
pub open spec fn strip_cr(s: Seq<char>) -> Seq<char> {
    if s.len() > 0 && s.last() == '\r' {
        s.drop_last()
    } else {
        s
    }
}

/// The lines of a text (`str::lines`): split at line breaks, each without
/// a trailing carriage return, no empty line after a final line break.
pub open spec fn text_lines(s: Seq<char>) -> Seq<Seq<char>> {
    let ps = crate::escape::split_char(s, '\n');
    let ps2 = if ps.last().len() == 0 {
        ps.drop_last()
    } else {
        ps
    };
    ps2.map_values(|l: Seq<char>| strip_cr(l))
}

/// The pieces between backquotes, the odd ones as code.
pub open spec fn code_pieces(ps: Seq<Seq<char>>) -> Seq<char>
    decreases ps.len(),
{
    if ps.len() == 0 {
        Seq::empty()
    } else {
        code_pieces(ps.drop_last()) + if (ps.len() - 1) % 2 == 1 {
            "<code>"@ + ps.last() + "</code>"@
        } else {
            ps.last()
        }
    }
}

/// Inline Markdown: text escaped, backquoted runs as `<code>`.
pub open spec fn inline_html(s: Seq<char>) -> Seq<char> {
    code_pieces(crate::escape::split_char(crate::escape::escaped(crate::escape::Escape::HtmlText, s), '`'))
}

/// `s` without `|` at either end.
pub open spec fn strip_pipes(s: Seq<char>) -> Seq<char>
    decreases s.len(),
{
    if s.len() > 0 && s[0] == '|' {
        strip_pipes(s.drop_first())
    } else if s.len() > 0 && s.last() == '|' {
        strip_pipes(s.drop_last())
    } else {
        s
    }
}

/// The cells of a table row, each trimmed and inline-converted, joined by
/// `</td><td>`.
pub open spec fn join_cells(cells: Seq<Seq<char>>) -> Seq<char>
    decreases cells.len(),
{
    if cells.len() == 0 {
        Seq::empty()
    } else if cells.len() == 1 {
        inline_html(crate::text::trim(cells[0]))
    } else {
        join_cells(cells.drop_last()) + "</td><td>"@ + inline_html(crate::text::trim(cells.last()))
    }
}

/// What closes an open list and an open table.
pub open spec fn close_text(in_list: bool, in_table: bool) -> Seq<char> {
    (if in_list {
        "</ul>\n"@
    } else {
        Seq::empty()
    }) + if in_table {
        "</table>\n"@
    } else {
        Seq::empty()
    }
}

/// One Markdown line into HTML: the text it adds and whether a list and a
/// table are open after it.
pub open spec fn html_line(line: Seq<char>, in_list: bool, in_table: bool) -> (Seq<char>, bool, bool) {
    if starts(line, "### "@) {
        (close_text(in_list, in_table) + "<h3>"@ + inline_html(line.skip(4)) + "</h3>\n"@, false, false)
    } else if starts(line, "## "@) {
        (close_text(in_list, in_table) + "<h2>"@ + inline_html(line.skip(3)) + "</h2>\n"@, false, false)
    } else if starts(line, "# "@) {
        ("<h1>"@ + inline_html(line.skip(2)) + "</h1>\n"@, in_list, in_table)
    } else if starts(line, "- "@) {
        (
            (if in_list {
                Seq::empty()
            } else {
                "<ul>\n"@
            }) + "<li>"@ + inline_html(line.skip(2)) + "</li>\n"@,
            true,
            in_table,
        )
    } else if starts(line, "|"@) {
        if has_rule(line) {
            (Seq::empty(), in_list, in_table)
        } else {
            (
                (if in_table {
                    Seq::empty()
                } else {
                    "<table>\n"@
                }) + "<tr><td>"@ + join_cells(crate::escape::split_char(strip_pipes(line), '|'))
                    + "</td></tr>\n"@,
                in_list,
                true,
            )
        }
    } else if starts(line, "> "@) {
        (close_text(in_list, in_table) + "<blockquote>"@ + inline_html(line.skip(2))
            + "</blockquote>\n"@, false, false)
    } else if line.len() == 0 {
        (close_text(in_list, in_table), false, false)
    } else {
        ("<p>"@ + inline_html(line) + "</p>\n"@, in_list, in_table)
    }
}

/// The HTML body of the lines, after `body`; what is still open is closed
/// at the end.
pub open spec fn html_run(lines: Seq<Seq<char>>, body: Seq<char>, in_list: bool, in_table: bool) -> Seq<char>
    decreases lines.len(),
{
    if lines.len() == 0 {
        body + close_text(in_list, in_table)
    } else {
        let (t, l, tb) = html_line(lines[0], in_list, in_table);
        html_run(lines.drop_first(), body + t, l, tb)
    }
}

/// Everything of the page before the title's name.
pub open spec fn html_top() -> Seq<char> {
    "<!DOCTYPE html>\n<html lang=\"en\">\n<head>\n<meta charset=\"utf-8\">\n<title>Documentation — "@
}

/// Everything between the title's name and the body.
pub open spec fn html_style() -> Seq<char> {
    "</title>\n<style>\nbody { font-family: system-ui, sans-serif; margin: 2rem auto; max-width: 55rem; color: #222; }\ntable { border-collapse: collapse; } td { border: 1px solid #ddd; padding: 0.4rem 0.8rem; }\ncode { background: #f3f3f3; padding: 0.1rem 0.3rem; border-radius: 3px; }\nblockquote { border-left: 4px solid #b7791f; margin: 0; padding: 0.3rem 1rem; background: #fdf6e3; }\n</style>\n</head>\n<body>\n"@
}

/// The documentation as a self-contained HTML page: the Markdown, line by
/// line, as headings, lists, a table, a note and paragraphs.
pub open spec fn spec_html(script_name: Seq<char>, program: Seq<SpecStmt>) -> Seq<char> {
    let md = spec_markdown(script_name, collect(program));
    html_top() + script_name + html_style() + html_run(text_lines(md), Seq::empty(), false, false)
        + "</body>\n</html>\n"@
}

fn starts_with_str(s: &Vec<char>, p: &str) -> (r: bool)
    ensures
        r == starts(s@, p@),
{
    let pv = crate::text::chars_of(p);
    if pv.len() > s.len() {
        return false;
    }
    let head = crate::text::slice_chars(s, 0, pv.len());
    assert(s@.subrange(0, pv@.len() as int) =~= s@.take(p@.len() as int));
    crate::text::chars_eq(&head, &pv)
}

fn contains_rule(s: &Vec<char>) -> (r: bool)
    ensures
        r == has_rule(s@),
{
    proof {
        reveal_strlit("---");
    }
    if s.len() < 3 {
        return false;
    }
    let last = s.len() - 3;
    let mut i: usize = 0;
    while i <= last
        invariant
            last + 3 == s@.len(),
            last + 3 == s.len(),
            i <= last + 1,
            forall|k: int| 0 <= k < i ==> #[trigger] s@.subrange(k, k + 3) != "---"@,
        decreases last + 1 - i,
    {
        proof {
            reveal_strlit("---");
        }
        if s[i] == '-' && s[i + 1] == '-' && s[i + 2] == '-' {
            assert(s@.subrange(i as int, i + 3) =~= "---"@);
            return true;
        }
        assert(s@.subrange(i as int, i + 3) != "---"@) by {
            if s@.subrange(i as int, i + 3) == "---"@ {
                assert(s@.subrange(i as int, i + 3)[0] == s@[i as int]);
                assert(s@.subrange(i as int, i + 3)[1] == s@[i + 1]);
                assert(s@.subrange(i as int, i + 3)[2] == s@[i + 2]);
            }
        }
        i = i + 1;
    }
    false
}

fn push_inline(out: &mut Vec<char>, s: &Vec<char>)
    ensures
        final(out)@ == old(out)@ + inline_html(s@),
{
    let mut esc: Vec<char> = Vec::new();
    crate::escape::push_escaped_chars(&mut esc, crate::escape::Escape::HtmlText, s);
    assert(esc@ =~= crate::escape::escaped(crate::escape::Escape::HtmlText, s@));
    let pieces = crate::escape::split_on(&esc, '`');
    let ghost pv = crate::escape::char_vecs_view(pieces@);
    let mut i: usize = 0;
    while i < pieces.len()
        invariant
            i <= pieces@.len(),
            pv == crate::escape::char_vecs_view(pieces@),
            out@ == old(out)@ + code_pieces(pv.take(i as int)),
        decreases pieces@.len() - i,
    {
        assert(pv.take(i + 1).drop_last() =~= pv.take(i as int));
        assert(pv.take(i + 1).last() == pieces@[i as int]@);
        let ghost before = out@;
        if i % 2 == 1 {
            push_str(out, "<code>");
            crate::text::push_all(out, &pieces[i]);
            push_str(out, "</code>");
            assert(out@ =~= before + ("<code>"@ + pieces@[i as int]@ + "</code>"@));
        } else {
            crate::text::push_all(out, &pieces[i]);
        }
        i = i + 1;
    }
    assert(pv.take(pieces@.len() as int) =~= pv);
}

fn strip_pipes_exec(s: &Vec<char>) -> (r: Vec<char>)
    ensures
        r@ == strip_pipes(s@),
{
    let mut a: usize = 0;
    let mut b: usize = s.len();
    assert(s@.subrange(0, s@.len() as int) =~= s@);
    while a < b && s[a] == '|'
        invariant
            a <= b == s@.len(),
            strip_pipes(s@) == strip_pipes(s@.subrange(a as int, b as int)),
        decreases b - a,
    {
        assert(s@.subrange(a as int, b as int).drop_first() =~= s@.subrange(a + 1, b as int));
        a = a + 1;
    }
    while a < b && s[b - 1] == '|'
        invariant
            a <= b <= s@.len(),
            a < b ==> s@[a as int] != '|',
            strip_pipes(s@) == strip_pipes(s@.subrange(a as int, b as int)),
        decreases b - a,
    {
        assert(s@.subrange(a as int, b as int).drop_last() =~= s@.subrange(a as int, b - 1));
        assert(s@.subrange(a as int, b as int)[0] == s@[a as int]);
        b = b - 1;
    }
    proof {
        let t = s@.subrange(a as int, b as int);
        if t.len() > 0 {
            assert(t[0] == s@[a as int]);
            assert(t.last() == s@[b - 1]);
        }
    }
    crate::text::slice_chars(s, a, b)
}

fn push_cells(out: &mut Vec<char>, line: &Vec<char>)
    ensures
        final(out)@ == old(out)@ + join_cells(crate::escape::split_char(strip_pipes(line@), '|')),
{
    let inner = strip_pipes_exec(line);
    let cells = crate::escape::split_on(&inner, '|');
    let ghost cv = crate::escape::char_vecs_view(cells@);
    let mut i: usize = 0;
    while i < cells.len()
        invariant
            i <= cells@.len(),
            cv == crate::escape::char_vecs_view(cells@),
            out@ == old(out)@ + join_cells(cv.take(i as int)),
        decreases cells@.len() - i,
    {
        assert(cv.take(i + 1).drop_last() =~= cv.take(i as int));
        assert(cv.take(i + 1).last() == cells@[i as int]@);
        let ghost before = out@;
        if i > 0 {
            push_str(out, "</td><td>");
        } else {
            assert(cv.take(1) =~= seq![cells@[0]@]);
        }
        let c = &cells[i];
        let t = crate::text::trim_range(c, 0, c.len());
        assert(c@.subrange(0, c@.len() as int) =~= c@);
        push_inline(out, &t);
        i = i + 1;
    }
    assert(cv.take(cells@.len() as int) =~= cv);
}

fn push_close(out: &mut Vec<char>, in_list: bool, in_table: bool)
    ensures
        final(out)@ == old(out)@ + close_text(in_list, in_table),
{
    let ghost a = out@;
    if in_list {
        push_str(out, "</ul>\n");
    }
    if in_table {
        push_str(out, "</table>\n");
    }
    assert(out@ =~= a + close_text(in_list, in_table));
}

fn push_tagged(out: &mut Vec<char>, open: &str, line: &Vec<char>, from: usize, close: &str)
    requires
        from <= line@.len(),
    ensures
        final(out)@ == old(out)@ + (open@ + inline_html(line@.skip(from as int)) + close@),
{
    push_str(out, open);
    let rest = crate::text::slice_chars(line, from, line.len());
    assert(rest@ =~= line@.skip(from as int));
    push_inline(out, &rest);
    push_str(out, close);
    assert(final(out)@ =~= old(out)@ + (open@ + inline_html(line@.skip(from as int)) + close@));
}

#[verifier::rlimit(40)]
#[verifier::spinoff_prover]
fn html_line_exec(out: &mut Vec<char>, line: &Vec<char>, in_list: bool, in_table: bool) -> (r: (bool, bool))
    ensures
        final(out)@ == old(out)@ + html_line(line@, in_list, in_table).0,
        r.0 == html_line(line@, in_list, in_table).1,
        r.1 == html_line(line@, in_list, in_table).2,
{
    let ghost a = out@;
    proof {
        reveal_strlit("### ");
        reveal_strlit("## ");
        reveal_strlit("# ");
        reveal_strlit("- ");
        reveal_strlit("> ");
    }
    if starts_with_str(line, "### ") {
        push_close(out, in_list, in_table);
        push_tagged(out, "<h3>", line, 4, "</h3>\n");
        return (false, false);
    }
    if starts_with_str(line, "## ") {
        push_close(out, in_list, in_table);
        push_tagged(out, "<h2>", line, 3, "</h2>\n");
        return (false, false);
    }
    if starts_with_str(line, "# ") {
        push_tagged(out, "<h1>", line, 2, "</h1>\n");
        return (in_list, in_table);
    }
    if starts_with_str(line, "- ") {
        if !in_list {
            push_str(out, "<ul>\n");
        }
        let ghost b = out@;
        push_tagged(out, "<li>", line, 2, "</li>\n");
        assert(out@ =~= a + html_line(line@, in_list, in_table).0);
        return (true, in_table);
    }
    if starts_with_str(line, "|") {
        if contains_rule(line) {
            assert(out@ =~= a + Seq::<char>::empty());
            return (in_list, in_table);
        }
        if !in_table {
            push_str(out, "<table>\n");
        }
        push_str(out, "<tr><td>");
        push_cells(out, line);
        push_str(out, "</td></tr>\n");
        assert(out@ =~= a + html_line(line@, in_list, in_table).0);
        return (in_list, true);
    }
    if starts_with_str(line, "> ") {
        push_close(out, in_list, in_table);
        push_tagged(out, "<blockquote>", line, 2, "</blockquote>\n");
        return (false, false);
    }
    if line.len() == 0 {
        push_close(out, in_list, in_table);
        return (false, false);
    }
    push_tagged(out, "<p>", line, 0, "</p>\n");
    assert(line@.skip(0) =~= line@);
    (in_list, in_table)
}

fn lines_of(s: &Vec<char>) -> (r: Vec<Vec<char>>)
    ensures
        crate::escape::char_vecs_view(r@) == text_lines(s@),
{
    let mut pieces = crate::escape::split_on(s, '\n');
    let ghost ps = crate::escape::char_vecs_view(pieces@);
    proof {
        assert(crate::escape::split_char(s@, '\n').len() > 0) by {
            lemma_split_nonempty(s@, '\n', Seq::empty());
        }
    }
    let n = pieces.len();
    let ghost ps2 = if ps.last().len() == 0 { ps.drop_last() } else { ps };
    let m: usize = if pieces[n - 1].len() == 0 { n - 1 } else { n };
    assert(ps.last() == pieces@[n - 1]@);
    let mut out: Vec<Vec<char>> = Vec::new();
    let mut i: usize = 0;
    while i < m
        invariant
            i <= m <= n == pieces@.len(),
            m == ps2.len(),
            ps == crate::escape::char_vecs_view(pieces@),
            ps2 == if ps.last().len() == 0 { ps.drop_last() } else { ps },
            ps.len() == n,
            crate::escape::char_vecs_view(out@) == ps2.take(i as int).map_values(|l: Seq<char>| strip_cr(l)),
        decreases m - i,
    {
        let p = &pieces[i];
        let q = if p.len() > 0 && p[p.len() - 1] == '\r' {
            crate::text::slice_chars(p, 0, p.len() - 1)
        } else {
            crate::text::clone_chars(p)
        };
        assert(ps2[i as int] == p@);
        assert(q@ =~= strip_cr(p@));
        let ghost before = crate::escape::char_vecs_view(out@);
        out.push(q);
        assert(crate::escape::char_vecs_view(out@) =~= before.push(q@));
        assert(ps2.take(i + 1).map_values(|l: Seq<char>| strip_cr(l)) =~= ps2.take(i as int).map_values(|l: Seq<char>| strip_cr(l)).push(strip_cr(ps2[i as int])));
        i = i + 1;
    }
    assert(ps2.take(m as int) =~= ps2);
    out
}

/// A split has at least one piece.
proof fn lemma_split_nonempty(s: Seq<char>, c: char, cur: Seq<char>)
    ensures
        crate::escape::split_from(s, c, cur).len() > 0,
    decreases s.len(),
{
    if s.len() > 0 {
        if s[0] == c {
            lemma_split_nonempty(s.drop_first(), c, Seq::empty());
        } else {
            lemma_split_nonempty(s.drop_first(), c, cur.push(s[0]));
        }
    }
}

/// The documentation of a script as a self-contained HTML page.
#[verifier::spinoff_prover]
pub fn html(script_name: &str, program: &Vec<Stmt>) -> (r: String)
    ensures
        r@ == spec_html(script_name@, stmts_view(program@)),
{
    let md = markdown(script_name, program);
    let mdv = crate::text::chars_of(md.as_str());
    let lines = lines_of(&mdv);
    let ghost lv = crate::escape::char_vecs_view(lines@);
    let mut body: Vec<char> = Vec::new();
    let mut in_list = false;
    let mut in_table = false;
    let mut i: usize = 0;
    assert(lv.skip(0) =~= lv);
    assert(body@ =~= Seq::<char>::empty());
    while i < lines.len()
        invariant
            i <= lines@.len(),
            lv == crate::escape::char_vecs_view(lines@),
            html_run(lv.skip(i as int), body@, in_list, in_table) == html_run(lv, Seq::empty(), false, false),
        decreases lines@.len() - i,
    {
        assert(lv.skip(i as int)[0] == lines@[i as int]@);
        assert(lv.skip(i as int).drop_first() =~= lv.skip(i + 1));
        let st = html_line_exec(&mut body, &lines[i], in_list, in_table);
        in_list = st.0;
        in_table = st.1;
        i = i + 1;
    }
    assert(lv.skip(lines@.len() as int) =~= Seq::<Seq<char>>::empty());
    push_close(&mut body, in_list, in_table);
    let mut out: Vec<char> = Vec::new();
    push_str(&mut out, "<!DOCTYPE html>\n<html lang=\"en\">\n<head>\n<meta charset=\"utf-8\">\n<title>Documentation — ");
    push_str(&mut out, script_name);
    push_str(&mut out, "</title>\n<style>\nbody { font-family: system-ui, sans-serif; margin: 2rem auto; max-width: 55rem; color: #222; }\ntable { border-collapse: collapse; } td { border: 1px solid #ddd; padding: 0.4rem 0.8rem; }\ncode { background: #f3f3f3; padding: 0.1rem 0.3rem; border-radius: 3px; }\nblockquote { border-left: 4px solid #b7791f; margin: 0; padding: 0.3rem 1rem; background: #fdf6e3; }\n</style>\n</head>\n<body>\n");
    crate::text::push_all(&mut out, &body);
    push_str(&mut out, "</body>\n</html>\n");
    assert(out@ =~= spec_html(script_name@, stmts_view(program@)));
    crate::text::string_of(&out)
}

} // verus!
