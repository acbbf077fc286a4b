//! The `pdfl lint` command: static analysis of a script's syntax tree —
//! names declared and never read (an `_` prefix silences it), duplicate or
//! empty checks, unknown namespaces, `assert` outside a check, and `fix::`
//! outside the `pdfl fix` command.

use vstd::prelude::*;
use crate::ast::{
    arg_view, args_view, block_view, expr_view, exprs_view, lemma_args_view, lemma_exprs_view,
    lemma_parts_view, lemma_stmts_view, part_view, parts_view, stmt_view, stmts_view,
    strings_view, Arg, Block, Expr, SpecArg, SpecBlock, SpecExpr, SpecStmt, SpecStrPart, Stmt,
    StrPart,
};
use crate::escape::char_vecs_view;
use crate::text::{nat_text, push_str};

verus! {

/// What a walk over the tree has gathered: each declaration and each check
/// or rule name (once per occurrence), the names read, the findings in
/// order, and whether `fix::` was already reported.
#[verifier::ext_equal]
pub struct LintState {
    pub declared: Seq<Seq<char>>,
    pub used: Seq<Seq<char>>,
    pub checks: Seq<Seq<char>>,
    pub findings: Seq<Seq<char>>,
    pub has_fix: bool,
}

/// Nothing gathered yet.
pub open spec fn empty_state() -> LintState {
    LintState {
        declared: Seq::empty(),
        used: Seq::empty(),
        checks: Seq::empty(),
        findings: Seq::empty(),
        has_fix: false,
    }
}

/// The namespaces the language has.
pub open spec fn namespaces() -> Seq<Seq<char>> {
    seq!["text"@, "struct"@, "visual"@, "prepress"@, "codes"@, "fix"@, "data"@]
}

/// The position of the first `::` in a name.
pub open spec fn first_colons(s: Seq<char>) -> Option<int>
    decreases s.len(),
{
    if s.len() < 2 {
        None
    } else {
        match first_colons(s.drop_last()) {
            Some(i) => Some(i),
            None => if s[s.len() - 2] == ':' && s[s.len() - 1] == ':' {
                Some(s.len() - 2)
            } else {
                None
            },
        }
    }
}

/// `s` without every occurrence of `x`.
pub open spec fn remove_all(s: Seq<Seq<char>>, x: Seq<char>) -> Seq<Seq<char>>
    decreases s.len(),
{
    if s.len() == 0 {
        Seq::empty()
    } else {
        let rest = remove_all(s.drop_last(), x);
        if s.last() == x {
            rest
        } else {
            rest.push(s.last())
        }
    }
}

/// Starts with `_`.
pub open spec fn silenced(s: Seq<char>) -> bool {
    s.len() > 0 && s[0] == '_'
}

/// The finding for a function parameter never read.
pub open spec fn param_finding(param: Seq<char>, name: Seq<char>) -> Seq<char> {
    "parameter '"@ + param + "' of function '"@ + name + "' never used"@
}

/// The finding for a block parameter never read.
pub open spec fn block_param_finding(param: Seq<char>) -> Seq<char> {
    "block parameter '"@ + param + "' never used"@
}

/// A function's parameters, in order: each one not silenced and not read
/// in the body is a finding; each is then forgotten as read.
pub open spec fn function_params(
    params: Seq<Seq<char>>,
    name: Seq<char>,
    findings: Seq<Seq<char>>,
    used: Seq<Seq<char>>,
) -> (Seq<Seq<char>>, Seq<Seq<char>>)
    decreases params.len(),
{
    if params.len() == 0 {
        (findings, used)
    } else {
        let p = params[0];
        let f = if !silenced(p) && !used.contains(p) {
            findings.push(param_finding(p, name))
        } else {
            findings
        };
        function_params(params.drop_first(), name, f, remove_all(used, p))
    }
}

/// A block's parameters: each one not silenced and not read in the body is
/// a finding.
pub open spec fn block_param_findings(params: Seq<Seq<char>>, used: Seq<Seq<char>>, findings: Seq<Seq<char>>) -> Seq<Seq<char>>
    decreases params.len(),
{
    if params.len() == 0 {
        findings
    } else {
        let p = params[0];
        let f = if !silenced(p) && !used.contains(p) {
            findings.push(block_param_finding(p))
        } else {
            findings
        };
        block_param_findings(params.drop_first(), used, f)
    }
}

/// The names read, without any of the parameters.
pub open spec fn forget_params(params: Seq<Seq<char>>, used: Seq<Seq<char>>) -> Seq<Seq<char>>
    decreases params.len(),
{
    if params.len() == 0 {
        used
    } else {
        forget_params(params.drop_first(), remove_all(used, params[0]))
    }
}

/// What reading a call adds: a call of a user function (no receiver, no
/// namespace) reads the function; an unknown namespace is a finding, and so
/// is the first `fix::` of the walk.
pub open spec fn lint_call_name(recv_none: bool, name: Seq<char>, st: LintState) -> LintState {
    let st1 = if recv_none && first_colons(name) is None {
        LintState { used: st.used.push("function '"@ + name + "'"@), ..st }
    } else {
        st
    };
    match first_colons(name) {
        Some(k) => {
            let ns = name.take(k);
            if !namespaces().contains(ns) {
                LintState { findings: st1.findings.push("unknown namespace: "@ + ns + "::"@), ..st1 }
            } else if ns == "fix"@ && !st1.has_fix {
                LintState {
                    has_fix: true,
                    findings: st1.findings.push(
                        "script uses fix:: — only works in the 'pdfl fix' command"@,
                    ),
                    ..st1
                }
            } else {
                st1
            }
        },
        None => st1,
    }
}

/// The walk of an expression.
pub open spec fn lint_expr(e: SpecExpr, st: LintState) -> LintState
    decreases e,
{
    match e {
        SpecExpr::Ident(name) => LintState { used: st.used.push(name), ..st },
        SpecExpr::Member { recv, .. } => lint_expr(*recv, st),
        SpecExpr::Call { recv, name, args, block } => {
            let st1 = lint_call_name(recv is None, name, st);
            let st2 = match recv {
                Some(r) => lint_expr(*r, st1),
                None => st1,
            };
            let st3 = lint_args(args, st2);
            match block {
                Some(b) => lint_block(b, st3),
                None => st3,
            }
        },
        SpecExpr::Unary { expr, .. } => lint_expr(*expr, st),
        SpecExpr::Binary { left, right, .. } => lint_expr(*right, lint_expr(*left, st)),
        SpecExpr::List(items) => lint_exprs(items, st),
        SpecExpr::Str(parts) => lint_parts(parts, st),
        _ => st,
    }
}

/// The walk of expressions in order.
pub open spec fn lint_exprs(es: Seq<SpecExpr>, st: LintState) -> LintState
    decreases es,
{
    if es.len() == 0 {
        st
    } else {
        lint_exprs(es.drop_first(), lint_expr(es[0], st))
    }
}

/// The walk of call arguments in order.
pub open spec fn lint_args(args: Seq<SpecArg>, st: LintState) -> LintState
    decreases args,
{
    if args.len() == 0 {
        st
    } else {
        lint_args(args.drop_first(), lint_expr(args[0].value, st))
    }
}

/// The walk of the interpolations of a string.
pub open spec fn lint_parts(ps: Seq<SpecStrPart>, st: LintState) -> LintState
    decreases ps,
{
    if ps.len() == 0 {
        st
    } else {
        let st1 = match ps[0] {
            SpecStrPart::Interp(e) => lint_expr(e, st),
            SpecStrPart::Lit(_) => st,
        };
        lint_parts(ps.drop_first(), st1)
    }
}

/// Folds what an inner walk gathered into the outer one: its declarations
/// and check names, the names it read (except `forgotten`), and after
/// `own` findings its findings.
pub open spec fn merge_inner(st: LintState, inner: LintState, used: Seq<Seq<char>>, own: Seq<Seq<char>>) -> LintState {
    LintState {
        declared: st.declared + inner.declared,
        used: st.used + used,
        checks: st.checks + inner.checks,
        findings: own + inner.findings,
        has_fix: st.has_fix,
    }
}

/// A block: its body walked apart, inside a check; its parameters not read
/// there are findings, and are not reads of the outer names.
pub open spec fn lint_block(b: SpecBlock, st: LintState) -> LintState
    decreases b,
{
    let inner = lint_stmts(b.body, true, empty_state());
    let own = block_param_findings(b.params, inner.used, st.findings);
    merge_inner(st, inner, forget_params(b.params, inner.used), own)
}

/// The walk of statements in order.
pub open spec fn lint_stmts(stmts: Seq<SpecStmt>, in_check: bool, st: LintState) -> LintState
    decreases stmts,
{
    if stmts.len() == 0 {
        st
    } else {
        lint_stmts(stmts.drop_first(), in_check, lint_stmt(stmts[0], in_check, st))
    }
}

/// The finding for an assert outside any check.
pub open spec fn outside_finding(line: nat) -> Seq<char> {
    "assert/require outside any check (line "@ + nat_text(line)
        + "): the diagnostic has no check name"@
}

/// The walk of one statement.
pub open spec fn lint_stmt(s: SpecStmt, in_check: bool, st: LintState) -> LintState
    decreases s,
{
    match s {
        SpecStmt::Profile { body, .. } => lint_stmts(body, in_check, st),
        SpecStmt::Import { .. } => st,
        SpecStmt::Rule { name, pages, body } => {
            let st1 = LintState { checks: st.checks.push(name), ..st };
            let st2 = if body.len() == 0 {
                LintState { findings: st1.findings.push("rule \""@ + name + "\" is empty"@), ..st1 }
            } else {
                st1
            };
            let st3 = match pages {
                Some(e) => lint_expr(e, st2),
                None => st2,
            };
            let st4 = LintState {
                declared: st3.declared.push("page"@),
                used: st3.used.push("page"@),
                ..st3
            };
            lint_stmts(body, true, st4)
        },
        SpecStmt::Function { name, params, body } => {
            let st1 = LintState {
                declared: st.declared.push("function '"@ + name + "'"@),
                ..st
            };
            let inner = lint_stmts(body, in_check, empty_state());
            let (own, used) = function_params(params, name, st1.findings, inner.used);
            merge_inner(st1, inner, used, own)
        },
        SpecStmt::Check { name, body, .. } => {
            let st1 = LintState { checks: st.checks.push(name), ..st };
            let st2 = if body.len() == 0 {
                LintState { findings: st1.findings.push("check \""@ + name + "\" is empty"@), ..st1 }
            } else {
                st1
            };
            lint_stmts(body, true, st2)
        },
        SpecStmt::Const { name, value } => lint_expr(
            value,
            LintState { declared: st.declared.push(name), ..st },
        ),
        SpecStmt::Assign { name, value } => lint_expr(
            value,
            LintState { declared: st.declared.push(name), ..st },
        ),
        SpecStmt::Assert { cond, message, line, .. } => {
            let st1 = if !in_check {
                LintState { findings: st.findings.push(outside_finding(line)), ..st }
            } else {
                st
            };
            let st2 = lint_expr(cond, st1);
            match message {
                Some(m) => lint_expr(m, st2),
                None => st2,
            }
        },
        SpecStmt::Expr(e) => lint_expr(e, st),
    }
}

/// The warning for a name declared and never read, if it is one: for a
/// function `function 'f' declared and never used` unless `f` starts with
/// `_`, for a variable `variable 'x' declared and never used` unless `x`
/// does.
pub open spec fn unused_line(name: Seq<char>) -> Option<Seq<char>> {
    if starts_fn(name) {
        let f = name.skip(9);
        if f.len() >= 2 && f[0] == '\'' && f[1] == '_' {
            None
        } else {
            Some("function "@ + f + " declared and never used"@)
        }
    } else if silenced(name) {
        None
    } else {
        Some("variable '"@ + name + "' declared and never used"@)
    }
}

/// Starts with `function `.
pub open spec fn starts_fn(name: Seq<char>) -> bool {
    name.len() >= 9 && name.take(9) == "function "@
}

/// The unused-name warnings, one per name declared (the first time it
/// appears) and never read.
pub open spec fn unused_lines(declared: Seq<Seq<char>>, used: Seq<Seq<char>>, k: nat) -> Seq<Seq<char>>
    decreases k,
{
    if k == 0 || k > declared.len() {
        Seq::empty()
    } else {
        let before = unused_lines(declared, used, (k - 1) as nat);
        let name = declared[k - 1];
        if declared.take(k - 1).contains(name) || used.contains(name) {
            before
        } else {
            match unused_line(name) {
                Some(l) => before.push(l),
                None => before,
            }
        }
    }
}

/// How many times `x` occurs in `s`.
pub open spec fn occurrences(s: Seq<Seq<char>>, x: Seq<char>) -> nat
    decreases s.len(),
{
    if s.len() == 0 {
        0
    } else {
        occurrences(s.drop_last(), x) + if s.last() == x {
            1nat
        } else {
            0nat
        }
    }
}

/// The duplicate-check warnings, one per name (the first time it appears)
/// declared more than once.
pub open spec fn duplicate_lines(checks: Seq<Seq<char>>, k: nat) -> Seq<Seq<char>>
    decreases k,
{
    if k == 0 || k > checks.len() {
        Seq::empty()
    } else {
        let before = duplicate_lines(checks, (k - 1) as nat);
        let name = checks[k - 1];
        let n = occurrences(checks, name);
        if checks.take(k - 1).contains(name) || n <= 1 {
            before
        } else {
            before.push("check \""@ + name + "\" declared "@ + nat_text(n) + " times"@)
        }
    }
}

/// Everything the linter reports about a program, before sorting.
pub open spec fn lint_lines(program: Seq<SpecStmt>) -> Seq<Seq<char>> {
    let st = lint_stmts(program, false, empty_state());
    unused_lines(st.declared, st.used, st.declared.len()) + duplicate_lines(
        st.checks,
        st.checks.len(),
    ) + st.findings
}

/// `a` comes before `b` in the order of `str` (by character, a prefix
/// first).
pub open spec fn lex_lt(a: Seq<char>, b: Seq<char>) -> bool
    decreases a.len(),
{
    if b.len() == 0 {
        false
    } else if a.len() == 0 {
        true
    } else if a[0] != b[0] {
        (a[0] as int) < (b[0] as int)
    } else {
        lex_lt(a.drop_first(), b.drop_first())
    }
}

/// In order: no line comes after one that follows it.
pub open spec fn sorted_lines(s: Seq<Seq<char>>) -> bool {
    forall|i: int, j: int| 0 <= i < j < s.len() ==> !lex_lt(#[trigger] s[j], #[trigger] s[i])
}

pub(crate) proof fn lemma_lex_trans(a: Seq<char>, b: Seq<char>, c: Seq<char>)
    requires
        lex_lt(a, b),
        lex_lt(b, c),
    ensures
        lex_lt(a, c),
    decreases a.len(),
{
    if a.len() > 0 && b.len() > 0 && c.len() > 0 && a[0] == b[0] && b[0] == c[0] {
        lemma_lex_trans(a.drop_first(), b.drop_first(), c.drop_first());
    }
}

pub(crate) proof fn lemma_lex_total(a: Seq<char>, b: Seq<char>)
    ensures
        lex_lt(a, b) || lex_lt(b, a) || a == b,
    decreases a.len(),
{
    if a.len() > 0 && b.len() > 0 && a[0] == b[0] {
        lemma_lex_total(a.drop_first(), b.drop_first());
        if a.drop_first() == b.drop_first() {
            assert(a =~= seq![a[0]] + a.drop_first());
            assert(b =~= seq![b[0]] + b.drop_first());
        }
    } else if a.len() == 0 && b.len() == 0 {
        assert(a =~= b);
    }
}

pub(crate) proof fn lemma_lex_irreflexive(a: Seq<char>)
    ensures
        !lex_lt(a, a),
    decreases a.len(),
{
    if a.len() > 0 {
        lemma_lex_irreflexive(a.drop_first());
    }
}

/// Whether `a` comes before `b`.
fn less(a: &Vec<char>, b: &Vec<char>) -> (r: bool)
    ensures
        r == lex_lt(a@, b@),
{
    let mut i: usize = 0;
    assert(a@.skip(0) =~= a@);
    assert(b@.skip(0) =~= b@);
    while i < a.len() && i < b.len() && a[i] == b[i]
        invariant
            i <= a@.len(),
            i <= b@.len(),
            lex_lt(a@, b@) == lex_lt(a@.skip(i as int), b@.skip(i as int)),
        decreases a@.len() - i,
    {
        assert(a@.skip(i as int).drop_first() =~= a@.skip(i + 1));
        assert(b@.skip(i as int).drop_first() =~= b@.skip(i + 1));
        assert(a@.skip(i as int)[0] == a@[i as int]);
        assert(b@.skip(i as int)[0] == b@[i as int]);
        i = i + 1;
    }
    if i == b.len() {
        return false;
    }
    if i == a.len() {
        return true;
    }
    assert(a@.skip(i as int)[0] == a@[i as int]);
    assert(b@.skip(i as int)[0] == b@[i as int]);
    a[i] < b[i]
}

/// Sorts lines in the order of `str`, keeping each line.
#[verifier::spinoff_prover]
pub fn sort_lines(v: Vec<Vec<char>>) -> (r: Vec<Vec<char>>)
    ensures
        sorted_lines(char_vecs_view(r@)),
        char_vecs_view(r@).to_multiset() == char_vecs_view(v@).to_multiset(),
{
    broadcast use vstd::seq_lib::group_to_multiset_ensures;
    let mut out: Vec<Vec<char>> = Vec::new();
    let mut i: usize = 0;
    let ghost vv = char_vecs_view(v@);
    assert(char_vecs_view(out@) =~= Seq::<Seq<char>>::empty());
    while i < v.len()
        invariant
            i <= v@.len(),
            vv == char_vecs_view(v@),
            sorted_lines(char_vecs_view(out@)),
            char_vecs_view(out@).to_multiset() == vv.take(i as int).to_multiset(),
        decreases v@.len() - i,
    {
        let x = &v[i];
        let ghost ov = char_vecs_view(out@);
        let mut p: usize = 0;
        while p < out.len() && !less(x, &out[p])
            invariant
                p <= out@.len(),
                ov == char_vecs_view(out@),
                forall|k: int| 0 <= k < p ==> !lex_lt(x@, #[trigger] ov[k]),
            decreases out@.len() - p,
        {
            p = p + 1;
        }
        let xc = crate::text::clone_chars(x);
        out.insert(p, xc);
        proof {
            let nv = char_vecs_view(out@);
            assert(nv =~= ov.insert(p as int, x@));
            ov.insert_ensures(p as int, x@);
            assert forall|a: int, b: int| 0 <= a < b < nv.len() implies !lex_lt(#[trigger] nv[b], #[trigger] nv[a]) by {
                if a < p && b < p {
                    assert(nv[a] == ov[a] && nv[b] == ov[b]);
                } else if a < p && b == p {
                    assert(!lex_lt(x@, ov[a]));
                } else if a < p && b > p {
                    assert(nv[b] == ov[b - 1]);
                    assert(!lex_lt(ov[b - 1], ov[a]));
                } else if a == p {
                    assert(nv[b] == ov[b - 1]);
                    assert(lex_lt(x@, ov[p as int]));
                    if lex_lt(ov[b - 1], x@) {
                        if b - 1 == p {
                            lemma_lex_trans(x@, ov[p as int], x@);
                            lemma_lex_irreflexive(x@);
                        } else {
                            assert(!lex_lt(ov[b - 1], ov[p as int]));
                            lemma_lex_trans(ov[b - 1], x@, ov[p as int]);
                        }
                    }
                } else {
                    assert(nv[a] == ov[a - 1] && nv[b] == ov[b - 1]);
                }
            }
            assert(vv.take(i + 1) =~= vv.take(i as int).push(x@));
            vstd::seq_lib::to_multiset_build(vv.take(i as int), x@);
            vstd::seq_lib::to_multiset_insert(ov, p as int, x@);
            assert(nv.to_multiset() =~= ov.to_multiset().insert(x@));
        }
        i = i + 1;
    }
    assert(vv.take(v@.len() as int) =~= vv);
    out
}


// ---- the walk ----

/// What the executable walk gathers.
struct Walker {
    declared: Vec<Vec<char>>,
    used: Vec<Vec<char>>,
    checks: Vec<Vec<char>>,
    findings: Vec<Vec<char>>,
    has_fix: bool,
}

spec fn wv(w: Walker) -> LintState {
    LintState {
        declared: char_vecs_view(w.declared@),
        used: char_vecs_view(w.used@),
        checks: char_vecs_view(w.checks@),
        findings: char_vecs_view(w.findings@),
        has_fix: w.has_fix,
    }
}

fn new_walker() -> (w: Walker)
    ensures
        wv(w) == empty_state(),
{
    let w = Walker {
        declared: Vec::new(),
        used: Vec::new(),
        checks: Vec::new(),
        findings: Vec::new(),
        has_fix: false,
    };
    assert(wv(w) =~= empty_state());
    w
}

fn push_line(v: &mut Vec<Vec<char>>, x: Vec<char>)
    ensures
        char_vecs_view(final(v)@) == char_vecs_view(old(v)@).push(x@),
{
    let ghost xv = x@;
    v.push(x);
    assert(char_vecs_view(v@) =~= char_vecs_view(old(v)@).push(xv));
}

fn append_lines(dst: &mut Vec<Vec<char>>, src: &Vec<Vec<char>>)
    ensures
        char_vecs_view(final(dst)@) == char_vecs_view(old(dst)@) + char_vecs_view(src@),
{
    let mut i: usize = 0;
    while i < src.len()
        invariant
            i <= src@.len(),
            char_vecs_view(dst@) == char_vecs_view(old(dst)@) + char_vecs_view(src@).take(i as int),
        decreases src@.len() - i,
    {
        let c = crate::text::clone_chars(&src[i]);
        push_line(dst, c);
        assert(char_vecs_view(src@).take(i + 1) =~= char_vecs_view(src@).take(i as int).push(src@[i as int]@));
        assert(char_vecs_view(dst@) =~= char_vecs_view(old(dst)@) + char_vecs_view(src@).take(i + 1));
        i = i + 1;
    }
    assert(char_vecs_view(src@).take(src@.len() as int) =~= char_vecs_view(src@));
}

fn contains_line(v: &Vec<Vec<char>>, x: &Vec<char>) -> (r: bool)
    ensures
        r == char_vecs_view(v@).contains(x@),
{
    let ghost vv = char_vecs_view(v@);
    let mut i: usize = 0;
    while i < v.len()
        invariant
            i <= v@.len(),
            vv == char_vecs_view(v@),
            forall|k: int| 0 <= k < i ==> vv[k] != x@,
        decreases v@.len() - i,
    {
        if crate::text::chars_eq(&v[i], x) {
            assert(vv[i as int] == x@);
            return true;
        }
        i = i + 1;
    }
    false
}

fn remove_line(v: &mut Vec<Vec<char>>, x: &Vec<char>)
    ensures
        char_vecs_view(final(v)@) == remove_all(char_vecs_view(old(v)@), x@),
{
    let ghost ov = char_vecs_view(v@);
    let mut out: Vec<Vec<char>> = Vec::new();
    let mut i: usize = 0;
    while i < v.len()
        invariant
            i <= v@.len(),
            ov == char_vecs_view(v@),
            char_vecs_view(out@) == remove_all(ov.take(i as int), x@),
        decreases v@.len() - i,
    {
        assert(ov.take(i + 1).drop_last() =~= ov.take(i as int));
        assert(ov.take(i + 1).last() == v@[i as int]@);
        if !crate::text::chars_eq(&v[i], x) {
            let c = crate::text::clone_chars(&v[i]);
            push_line(&mut out, c);
        }
        i = i + 1;
    }
    assert(ov.take(v@.len() as int) =~= ov);
    *v = out;
}

fn chars_from(s: &String) -> (r: Vec<char>)
    ensures
        r@ == s@,
{
    crate::text::chars_of(s.as_str())
}

fn is_silenced(s: &Vec<char>) -> (r: bool)
    ensures
        r == silenced(s@),
{
    s.len() > 0 && s[0] == '_'
}

fn find_colons(s: &Vec<char>) -> (r: Option<usize>)
    ensures
        r is Some ==> first_colons(s@) == Some(r->0 as int) && r->0 + 2 <= s@.len(),
        r is None ==> first_colons(s@) is None,
{
    if s.len() < 2 {
        return None;
    }
    let mut i: usize = 0;
    while i < s.len() - 1
        invariant
            i + 1 <= s@.len(),
            s@.len() == s.len(),
            first_colons(s@.take(i + 1)) is None,
        decreases s@.len() - i,
    {
        assert(s@.take(i + 2).drop_last() =~= s@.take(i + 1));
        if s[i] == ':' && s[i + 1] == ':' {
            proof {
                lemma_first_colons_extend(s@, i + 2);
            }
            return Some(i);
        }
        i = i + 1;
    }
    assert(s@.take(i + 1) =~= s@);
    None
}

proof fn lemma_first_colons_extend(s: Seq<char>, k: int)
    requires
        2 <= k <= s.len(),
        first_colons(s.take(k)) is Some,
    ensures
        first_colons(s) == first_colons(s.take(k)),
    decreases s.len() - k,
{
    if k < s.len() {
        assert(s.take(k + 1).drop_last() =~= s.take(k));
        lemma_first_colons_extend(s, k + 1);
    } else {
        assert(s.take(k) =~= s);
    }
}

fn is_namespace(ns: &Vec<char>) -> (r: bool)
    ensures
        r == namespaces().contains(ns@),
{
    let list: [&str; 7] = ["text", "struct", "visual", "prepress", "codes", "fix", "data"];
    let ghost names = namespaces();
    assert(forall|k: int| 0 <= k < 7 ==> list@[k]@ == #[trigger] names[k]);
    let mut i: usize = 0;
    while i < 7
        invariant
            i <= 7,
            names == namespaces(),
            names.len() == 7,
            forall|k: int| 0 <= k < 7 ==> list@[k]@ == #[trigger] names[k],
            forall|k: int| 0 <= k < i ==> names[k] != ns@,
        decreases 7 - i,
    {
        if crate::text::chars_eq_str(ns, list[i]) {
            assert(names[i as int] == ns@);
            return true;
        }
        i = i + 1;
    }
    false
}

#[verifier::spinoff_prover]
fn walk_call_name(w: &mut Walker, recv_none: bool, name: &String)
    ensures
        wv(*final(w)) == lint_call_name(recv_none, name@, wv(*old(w))),
{
    let n = chars_from(name);
    let colons = find_colons(&n);
    let ghost st = wv(*w);
    if recv_none && colons.is_none() {
        let mut f: Vec<char> = Vec::new();
        push_str(&mut f, "function '");
        crate::text::push_all(&mut f, &n);
        push_str(&mut f, "'");
        push_line(&mut w.used, f);
        assert(wv(*w) =~= LintState { used: st.used.push("function '"@ + name@ + "'"@), ..st });
    }
    let ghost st1 = wv(*w);
    match colons {
        Some(k) => {
            let ns = crate::text::slice_chars(&n, 0, k);
            assert(ns@ =~= n@.take(k as int));
            if !is_namespace(&ns) {
                let mut f: Vec<char> = Vec::new();
                push_str(&mut f, "unknown namespace: ");
                crate::text::push_all(&mut f, &ns);
                push_str(&mut f, "::");
                push_line(&mut w.findings, f);
                assert(wv(*w) =~= LintState {
                    findings: st1.findings.push("unknown namespace: "@ + ns@ + "::"@),
                    ..st1
                });
            } else if crate::text::chars_eq_str(&ns, "fix") && !w.has_fix {
                w.has_fix = true;
                let mut f: Vec<char> = Vec::new();
                push_str(&mut f, "script uses fix:: — only works in the 'pdfl fix' command");
                push_line(&mut w.findings, f);
                assert(wv(*w) =~= LintState {
                    has_fix: true,
                    findings: st1.findings.push(
                        "script uses fix:: — only works in the 'pdfl fix' command"@,
                    ),
                    ..st1
                });
            }
        },
        None => {},
    }
}

/// Walks an expression.
#[verifier::spinoff_prover]
fn walk_expr(w: &mut Walker, e: &Expr)
    ensures
        wv(*final(w)) == lint_expr(e@, wv(*old(w))),
    decreases e@,
{
    let ghost x = e@;
    match e {
        Expr::Ident(name) => {
            let n = chars_from(name);
            push_line(&mut w.used, n);
            assert(wv(*w) =~= LintState { used: wv(*old(w)).used.push(name@), ..wv(*old(w)) });
        },
        Expr::Member { recv, .. } => {
            proof {
                assert(decreases_to!(x => x->Member_recv));
            }
            walk_expr(w, recv);
        },
        Expr::Call { recv, name, args, block } => {
            walk_call_name(w, recv.is_none(), name);
            match recv {
                Some(r) => {
                    proof {
                        assert(decreases_to!(x => x->Call_recv));
                        assert(decreases_to!(x->Call_recv => x->Call_recv->0));
                    }
                    walk_expr(w, r);
                },
                None => {},
            }
            let ghost av = args_view(args@);
            let ghost st2 = wv(*w);
            proof {
                lemma_args_view(args@);
                assert(av.skip(0) =~= av);
            }
            let mut i: usize = 0;
            while i < args.len()
                invariant
                    x == e@,
                    x is Call,
                    x->Call_args == av,
                    av == args_view(args@),
                    av.len() == args@.len(),
                    forall|k: int| 0 <= k < args@.len() ==> #[trigger] av[k] == arg_view(args@[k]),
                    i <= args.len(),
                    lint_args(av.skip(i as int), wv(*w)) == lint_args(av, st2),
                decreases args.len() - i,
            {
                assert(av.skip(i as int)[0] == av[i as int]);
                assert(av.skip(i as int).drop_first() =~= av.skip(i + 1));
                proof {
                    assert(decreases_to!(x => x->Call_args));
                    assert(decreases_to!(av => av[i as int]));
                    assert(decreases_to!(av[i as int] => av[i as int].value));
                }
                walk_expr(w, &args[i].value);
                i = i + 1;
            }
            assert(av.skip(args@.len() as int) =~= Seq::<SpecArg>::empty());
            match block {
                Some(b) => {
                    proof {
                        assert(decreases_to!(x => x->Call_block));
                        assert(decreases_to!(x->Call_block => x->Call_block->0));
                    }
                    walk_block(w, b);
                },
                None => {},
            }
        },
        Expr::Unary { expr, .. } => {
            proof {
                assert(decreases_to!(x => x->Unary_expr));
            }
            walk_expr(w, expr);
        },
        Expr::Binary { left, right, .. } => {
            proof {
                assert(decreases_to!(x => x->Binary_left));
                assert(decreases_to!(x => x->Binary_right));
            }
            walk_expr(w, left);
            walk_expr(w, right);
        },
        Expr::List(items) => {
            let ghost iv = exprs_view(items@);
            let ghost st0 = wv(*w);
            proof {
                lemma_exprs_view(items@);
                assert(iv.skip(0) =~= iv);
            }
            let mut i: usize = 0;
            while i < items.len()
                invariant
                    x == e@,
                    x is List,
                    x->List_0 == iv,
                    iv == exprs_view(items@),
                    iv.len() == items@.len(),
                    forall|k: int| 0 <= k < items@.len() ==> #[trigger] iv[k] == expr_view(items@[k]),
                    i <= items.len(),
                    lint_exprs(iv.skip(i as int), wv(*w)) == lint_exprs(iv, st0),
                decreases items.len() - i,
            {
                assert(iv.skip(i as int)[0] == iv[i as int]);
                assert(iv.skip(i as int).drop_first() =~= iv.skip(i + 1));
                proof {
                    assert(decreases_to!(x => x->List_0));
                    assert(decreases_to!(iv => iv[i as int]));
                }
                walk_expr(w, &items[i]);
                i = i + 1;
            }
            assert(iv.skip(items@.len() as int) =~= Seq::<SpecExpr>::empty());
        },
        Expr::Str(parts) => {
            let ghost pv = parts_view(parts@);
            let ghost st0 = wv(*w);
            proof {
                lemma_parts_view(parts@);
                assert(pv.skip(0) =~= pv);
            }
            let mut i: usize = 0;
            while i < parts.len()
                invariant
                    x == e@,
                    x is Str,
                    x->Str_0 == pv,
                    pv == parts_view(parts@),
                    pv.len() == parts@.len(),
                    forall|k: int| 0 <= k < parts@.len() ==> #[trigger] pv[k] == part_view(parts@[k]),
                    i <= parts.len(),
                    lint_parts(pv.skip(i as int), wv(*w)) == lint_parts(pv, st0),
                decreases parts.len() - i,
            {
                assert(pv.skip(i as int)[0] == pv[i as int]);
                assert(pv.skip(i as int).drop_first() =~= pv.skip(i + 1));
                match &parts[i] {
                    StrPart::Interp(inner) => {
                        proof {
                            assert(decreases_to!(x => x->Str_0));
                            assert(decreases_to!(pv => pv[i as int]));
                            assert(decreases_to!(pv[i as int] => pv[i as int]->Interp_0));
                        }
                        walk_expr(w, inner);
                    },
                    StrPart::Lit(_) => {},
                }
                i = i + 1;
            }
            assert(pv.skip(parts@.len() as int) =~= Seq::<SpecStrPart>::empty());
        },
        _ => {},
    }
}

/// Walks a block apart and folds it in.
#[verifier::spinoff_prover]
fn walk_block(w: &mut Walker, b: &Block)
    ensures
        wv(*final(w)) == lint_block(block_view(*b), wv(*old(w))),
    decreases block_view(*b),
{
    let ghost bv = block_view(*b);
    let mut inner = new_walker();
    proof {
        assert(decreases_to!(bv => bv.body));
    }
    walk_stmts(&mut inner, &b.body, true);
    let ghost pv = strings_view(b.params@);
    let ghost iu = wv(inner).used;
    let ghost f0 = wv(*w).findings;
    let ghost st = wv(*old(w));
    let ghost iv = wv(inner);
    let mut i: usize = 0;
    assert(pv.skip(0) =~= pv);
    while i < b.params.len()
        invariant
            i <= b.params@.len(),
            pv == strings_view(b.params@),
            iu == char_vecs_view(inner.used@),
            wv(inner) == iv,
            wv(*w).declared == st.declared,
            wv(*w).used == st.used,
            wv(*w).checks == st.checks,
            wv(*w).has_fix == st.has_fix,
            block_param_findings(pv.skip(i as int), iu, char_vecs_view(w.findings@))
                == block_param_findings(pv, iu, f0),
        decreases b.params@.len() - i,
    {
        assert(pv.skip(i as int)[0] == b.params@[i as int]@);
        assert(pv.skip(i as int).drop_first() =~= pv.skip(i + 1));
        let p = chars_from(&b.params[i]);
        if !is_silenced(&p) && !contains_line(&inner.used, &p) {
            let mut f: Vec<char> = Vec::new();
            push_str(&mut f, "block parameter '");
            crate::text::push_all(&mut f, &p);
            push_str(&mut f, "' never used");
            assert(f@ =~= block_param_finding(p@));
            push_line(&mut w.findings, f);
        }
        i = i + 1;
    }
    assert(pv.skip(b.params@.len() as int) =~= Seq::<Seq<char>>::empty());
    let ghost own = char_vecs_view(w.findings@);
    let mut j: usize = 0;
    assert(pv.skip(0) =~= pv);
    while j < b.params.len()
        invariant
            j <= b.params@.len(),
            pv == strings_view(b.params@),
            wv(inner).declared == iv.declared,
            wv(inner).checks == iv.checks,
            wv(inner).findings == iv.findings,
            forget_params(pv.skip(j as int), char_vecs_view(inner.used@)) == forget_params(pv, iu),
        decreases b.params@.len() - j,
    {
        assert(pv.skip(j as int)[0] == b.params@[j as int]@);
        assert(pv.skip(j as int).drop_first() =~= pv.skip(j + 1));
        let p = chars_from(&b.params[j]);
        remove_line(&mut inner.used, &p);
        j = j + 1;
    }
    assert(pv.skip(b.params@.len() as int) =~= Seq::<Seq<char>>::empty());
    append_lines(&mut w.declared, &inner.declared);
    append_lines(&mut w.used, &inner.used);
    append_lines(&mut w.checks, &inner.checks);
    append_lines(&mut w.findings, &inner.findings);
    assert(wv(*w) =~= merge_inner(st, iv, forget_params(pv, iu), own));
}

/// Walks statements in order.
fn walk_stmts(w: &mut Walker, stmts: &Vec<Stmt>, in_check: bool)
    ensures
        wv(*final(w)) == lint_stmts(stmts_view(stmts@), in_check, wv(*old(w))),
    decreases stmts_view(stmts@),
{
    let ghost sv = stmts_view(stmts@);
    proof {
        lemma_stmts_view(stmts@);
        assert(sv.skip(0) =~= sv);
    }
    let mut i: usize = 0;
    while i < stmts.len()
        invariant
            sv == stmts_view(stmts@),
            sv.len() == stmts@.len(),
            forall|k: int| 0 <= k < stmts@.len() ==> #[trigger] sv[k] == stmt_view(stmts@[k]),
            i <= stmts.len(),
            lint_stmts(sv.skip(i as int), in_check, wv(*w)) == lint_stmts(sv, in_check, wv(*old(w))),
        decreases stmts.len() - i,
    {
        assert(sv.skip(i as int)[0] == sv[i as int]);
        assert(sv.skip(i as int).drop_first() =~= sv.skip(i + 1));
        proof {
            assert(decreases_to!(sv => sv[i as int]));
        }
        walk_stmt(w, &stmts[i], in_check);
        i = i + 1;
    }
    assert(sv.skip(stmts@.len() as int) =~= Seq::<SpecStmt>::empty());
}

/// Walks one statement.
#[verifier::spinoff_prover]
fn walk_stmt(w: &mut Walker, s: &Stmt, in_check: bool)
    ensures
        wv(*final(w)) == lint_stmt(s@, in_check, wv(*old(w))),
    decreases s@,
{
    let ghost x = s@;
    let ghost st = wv(*w);
    match s {
        Stmt::Profile { body, .. } => {
            proof {
                assert(decreases_to!(x => x->Profile_body));
            }
            walk_stmts(w, body, in_check);
        },
        Stmt::Import { .. } => {},
        Stmt::Rule { name, pages, body } => {
            push_line(&mut w.checks, chars_from(name));
            assert(wv(*w) =~= LintState { checks: st.checks.push(name@), ..st });
            let ghost st1 = wv(*w);
            if body.len() == 0 {
                let mut f: Vec<char> = Vec::new();
                push_str(&mut f, "rule \"");
                push_str(&mut f, name.as_str());
                push_str(&mut f, "\" is empty");
                push_line(&mut w.findings, f);
                assert(wv(*w) =~= LintState {
                    findings: st1.findings.push("rule \""@ + name@ + "\" is empty"@),
                    ..st1
                });
            }
            assert(stmts_view(body@).len() == body@.len()) by {
                lemma_stmts_view(body@);
            }
            match pages {
                Some(e) => {
                    proof {
                        assert(decreases_to!(x => x->Rule_pages));
                        assert(decreases_to!(x->Rule_pages => x->Rule_pages->0));
                    }
                    walk_expr(w, e);
                },
                None => {},
            }
            let ghost st3 = wv(*w);
            let mut pg: Vec<char> = Vec::new();
            push_str(&mut pg, "page");
            let pg2 = crate::text::clone_chars(&pg);
            push_line(&mut w.declared, pg);
            push_line(&mut w.used, pg2);
            assert(wv(*w) =~= LintState {
                declared: st3.declared.push("page"@),
                used: st3.used.push("page"@),
                ..st3
            });
            proof {
                assert(decreases_to!(x => x->Rule_body));
            }
            walk_stmts(w, body, true);
        },
        Stmt::Function { name, params, body } => {
            let mut f: Vec<char> = Vec::new();
            push_str(&mut f, "function '");
            push_str(&mut f, name.as_str());
            push_str(&mut f, "'");
            push_line(&mut w.declared, f);
            let ghost st1 = wv(*w);
            assert(st1 =~= LintState { declared: st.declared.push("function '"@ + name@ + "'"@), ..st });
            let mut inner = new_walker();
            proof {
                assert(decreases_to!(x => x->Function_body));
            }
            walk_stmts(&mut inner, body, in_check);
            let ghost iv = wv(inner);
            let ghost pv = strings_view(params@);
            let mut i: usize = 0;
            assert(pv.skip(0) =~= pv);
            while i < params.len()
                invariant
                    i <= params@.len(),
                    pv == strings_view(params@),
                    wv(inner).declared == iv.declared,
                    wv(inner).checks == iv.checks,
                    wv(inner).findings == iv.findings,
                    wv(*w).declared == st1.declared,
                    wv(*w).used == st1.used,
                    wv(*w).checks == st1.checks,
                    wv(*w).has_fix == st1.has_fix,
                    function_params(
                        pv.skip(i as int),
                        name@,
                        char_vecs_view(w.findings@),
                        char_vecs_view(inner.used@),
                    ) == function_params(pv, name@, st1.findings, iv.used),
                decreases params@.len() - i,
            {
                assert(pv.skip(i as int)[0] == params@[i as int]@);
                assert(pv.skip(i as int).drop_first() =~= pv.skip(i + 1));
                let p = chars_from(&params[i]);
                if !is_silenced(&p) && !contains_line(&inner.used, &p) {
                    let mut m: Vec<char> = Vec::new();
                    push_str(&mut m, "parameter '");
                    crate::text::push_all(&mut m, &p);
                    push_str(&mut m, "' of function '");
                    push_str(&mut m, name.as_str());
                    push_str(&mut m, "' never used");
                    assert(m@ =~= param_finding(p@, name@));
                    push_line(&mut w.findings, m);
                }
                remove_line(&mut inner.used, &p);
                i = i + 1;
            }
            assert(pv.skip(params@.len() as int) =~= Seq::<Seq<char>>::empty());
            let ghost own = char_vecs_view(w.findings@);
            let ghost used2 = char_vecs_view(inner.used@);
            append_lines(&mut w.declared, &inner.declared);
            append_lines(&mut w.used, &inner.used);
            append_lines(&mut w.checks, &inner.checks);
            append_lines(&mut w.findings, &inner.findings);
            assert(wv(*w) =~= merge_inner(st1, iv, used2, own));
        },
        Stmt::Check { name, body, .. } => {
            push_line(&mut w.checks, chars_from(name));
            assert(wv(*w) =~= LintState { checks: st.checks.push(name@), ..st });
            let ghost st1 = wv(*w);
            if body.len() == 0 {
                let mut f: Vec<char> = Vec::new();
                push_str(&mut f, "check \"");
                push_str(&mut f, name.as_str());
                push_str(&mut f, "\" is empty");
                push_line(&mut w.findings, f);
                assert(wv(*w) =~= LintState {
                    findings: st1.findings.push("check \""@ + name@ + "\" is empty"@),
                    ..st1
                });
            }
            assert(stmts_view(body@).len() == body@.len()) by {
                lemma_stmts_view(body@);
            }
            proof {
                assert(decreases_to!(x => x->Check_body));
            }
            walk_stmts(w, body, true);
        },
        Stmt::Const { name, value } => {
            push_line(&mut w.declared, chars_from(name));
            assert(wv(*w) =~= LintState { declared: st.declared.push(name@), ..st });
            proof {
                assert(decreases_to!(x => x->Const_value));
            }
            walk_expr(w, value);
        },
        Stmt::Assign { name, value } => {
            push_line(&mut w.declared, chars_from(name));
            assert(wv(*w) =~= LintState { declared: st.declared.push(name@), ..st });
            proof {
                assert(decreases_to!(x => x->Assign_value));
            }
            walk_expr(w, value);
        },
        Stmt::Assert { cond, message, line, .. } => {
            if !in_check {
                let mut f: Vec<char> = Vec::new();
                push_str(&mut f, "assert/require outside any check (line ");
                crate::text::push_usize(&mut f, *line);
                push_str(&mut f, "): the diagnostic has no check name");
                assert(f@ =~= outside_finding(*line as nat));
                push_line(&mut w.findings, f);
                assert(wv(*w) =~= LintState { findings: st.findings.push(outside_finding(*line as nat)), ..st });
            }
            proof {
                assert(decreases_to!(x => x->Assert_cond));
            }
            walk_expr(w, cond);
            match message {
                Some(m) => {
                    proof {
                        assert(decreases_to!(x => x->Assert_message));
                        assert(decreases_to!(x->Assert_message => x->Assert_message->0));
                    }
                    walk_expr(w, m);
                },
                None => {},
            }
        },
        Stmt::Expr(e) => {
            proof {
                assert(decreases_to!(x => x->Expr_0));
            }
            walk_expr(w, e);
        },
    }
}


fn contains_before(v: &Vec<Vec<char>>, k: usize, x: &Vec<char>) -> (r: bool)
    requires
        k <= v@.len(),
    ensures
        r == char_vecs_view(v@).take(k as int).contains(x@),
{
    let ghost vv = char_vecs_view(v@).take(k as int);
    let mut i: usize = 0;
    while i < k
        invariant
            i <= k <= v@.len(),
            vv == char_vecs_view(v@).take(k as int),
            forall|j: int| 0 <= j < i ==> vv[j] != x@,
        decreases k - i,
    {
        if crate::text::chars_eq(&v[i], x) {
            assert(vv[i as int] == x@);
            return true;
        }
        i = i + 1;
    }
    false
}

fn count_lines(v: &Vec<Vec<char>>, x: &Vec<char>) -> (n: usize)
    ensures
        n == occurrences(char_vecs_view(v@), x@),
{
    let ghost vv = char_vecs_view(v@);
    let mut n: usize = 0;
    let mut i: usize = 0;
    while i < v.len()
        invariant
            i <= v@.len(),
            vv == char_vecs_view(v@),
            n == occurrences(vv.take(i as int), x@),
            n <= i,
        decreases v@.len() - i,
    {
        assert(vv.take(i + 1).drop_last() =~= vv.take(i as int));
        assert(vv.take(i + 1).last() == v@[i as int]@);
        if crate::text::chars_eq(&v[i], x) {
            n = n + 1;
        }
        i = i + 1;
    }
    assert(vv.take(v@.len() as int) =~= vv);
    n
}

fn unused_message(name: &Vec<char>) -> (r: Option<Vec<char>>)
    ensures
        r is Some <==> unused_line(name@) is Some,
        r is Some ==> r->0@ == unused_line(name@)->0,
{
    let is_fn = if name.len() >= 9 {
        let head = crate::text::slice_chars(name, 0, 9);
        assert(name@.subrange(0, 9) =~= name@.take(9));
        crate::text::chars_eq_str(&head, "function ")
    } else {
        false
    };
    if is_fn {
        let f = crate::text::slice_chars(name, 9, name.len());
        assert(f@ =~= name@.skip(9));
        if f.len() >= 2 && f[0] == '\'' && f[1] == '_' {
            return None;
        }
        let mut m: Vec<char> = Vec::new();
        push_str(&mut m, "function ");
        crate::text::push_all(&mut m, &f);
        push_str(&mut m, " declared and never used");
        return Some(m);
    }
    if is_silenced(name) {
        return None;
    }
    let mut m: Vec<char> = Vec::new();
    push_str(&mut m, "variable '");
    crate::text::push_all(&mut m, name);
    push_str(&mut m, "' declared and never used");
    Some(m)
}

/// Static analysis of a program: the warnings, sorted.
#[verifier::spinoff_prover]
pub fn lint(program: &Vec<Stmt>) -> (r: Vec<String>)
    ensures
        sorted_lines(strings_view(r@)),
        strings_view(r@).to_multiset() == lint_lines(stmts_view(program@)).to_multiset(),
{
    let mut w = new_walker();
    walk_stmts(&mut w, program, false);
    let ghost st = wv(w);
    assert(st == lint_stmts(stmts_view(program@), false, empty_state()));
    let mut lines: Vec<Vec<char>> = Vec::new();
    let mut k: usize = 0;
    assert(char_vecs_view(lines@) =~= unused_lines(st.declared, st.used, 0));
    while k < w.declared.len()
        invariant
            k <= w.declared@.len(),
            st == wv(w),
            char_vecs_view(lines@) == unused_lines(st.declared, st.used, k as nat),
        decreases w.declared@.len() - k,
    {
        let name = &w.declared[k];
        assert(st.declared[k as int] == name@);
        let seen = contains_before(&w.declared, k, name);
        if !seen && !contains_line(&w.used, name) {
            match unused_message(name) {
                Some(m) => push_line(&mut lines, m),
                None => {},
            }
        }
        k = k + 1;
    }
    let ghost part1 = char_vecs_view(lines@);
    let mut c: usize = 0;
    let ghost start = char_vecs_view(lines@);
    assert(char_vecs_view(lines@) =~= start + duplicate_lines(st.checks, 0));
    while c < w.checks.len()
        invariant
            c <= w.checks@.len(),
            st == wv(w),
            char_vecs_view(lines@) == start + duplicate_lines(st.checks, c as nat),
        decreases w.checks@.len() - c,
    {
        let name = &w.checks[c];
        assert(st.checks[c as int] == name@);
        let seen = contains_before(&w.checks, c, name);
        let n = count_lines(&w.checks, name);
        let ghost before = char_vecs_view(lines@);
        if !seen && n > 1 {
            let mut m: Vec<char> = Vec::new();
            push_str(&mut m, "check \"");
            crate::text::push_all(&mut m, name);
            push_str(&mut m, "\" declared ");
            crate::text::push_usize(&mut m, n);
            push_str(&mut m, " times");
            let ghost mv = m@;
            push_line(&mut lines, m);
            assert(char_vecs_view(lines@) =~= start + duplicate_lines(st.checks, (c + 1) as nat));
        }
        c = c + 1;
    }
    append_lines(&mut lines, &w.findings);
    assert(char_vecs_view(lines@) =~= lint_lines(stmts_view(program@)));
    let sorted = sort_lines(lines);
    let mut out: Vec<String> = Vec::new();
    let mut i: usize = 0;
    while i < sorted.len()
        invariant
            i <= sorted@.len(),
            strings_view(out@) == char_vecs_view(sorted@).take(i as int),
        decreases sorted@.len() - i,
    {
        let ghost before = strings_view(out@);
        let s = crate::text::string_of(&sorted[i]);
        out.push(s);
        assert(strings_view(out@) =~= before.push(s@));
        assert(char_vecs_view(sorted@).take(i + 1) =~= char_vecs_view(sorted@).take(i as int).push(sorted@[i as int]@));
        i = i + 1;
    }
    assert(char_vecs_view(sorted@).take(sorted@.len() as int) =~= char_vecs_view(sorted@));
    out
}

} // verus!
