//! AST of the PDFLang language, and the source text an expression is
//! written back as (the automatic message of a `require`).

use vstd::prelude::*;
use crate::fmt::{i64_text, strip_leading_zeros, strip_trailing_zeros, dot_pos, push_i64};
use crate::lexer::Unit;
use crate::report::Severity;
use crate::text::{chars_of, push_all, push_str, slice_chars};

verus! {

broadcast use vstd::string::group_string_axioms;

/// A number literal: its digits as written and the unit after it, if any.
/// (Its value in points is a floating-point matter for the evaluator.)
#[derive(Debug, Clone, PartialEq)]
pub struct Number {
    pub digits: String,
    pub unit: Option<Unit>,
}

#[derive(Debug, PartialEq)]
pub enum Stmt {
    Profile { name: String, body: Vec<Stmt> },
    /// `check "name" [tags: [...]] [severity: warning] { ... }`
    Check { name: String, tags: Vec<String>, severity: Severity, body: Vec<Stmt> },
    /// `function name(a, b) { ... }`: its value is that of the last expression.
    Function { name: String, params: Vec<String>, body: Vec<Stmt> },
    /// `import "other.pdfl"`: a path relative to the importing script.
    Import { path: String },
    /// `rule "name" on <pages expression> { body }`: runs the body for each
    /// selected page, with `page` bound inside the block.
    Rule { name: String, pages: Option<Expr>, body: Vec<Stmt> },
    Const { name: String, value: Expr },
    Assign { name: String, value: Expr },
    /// `assert expr [, "message"]`; `require` becomes an Assert without a
    /// message, `source` keeping the expression's text for the default message.
    Assert { cond: Expr, message: Option<Expr>, source: String, line: usize },
    Expr(Expr),
}

#[derive(Debug, PartialEq)]
pub enum Expr {
    Int(i64),
    Float(Number),
    Str(Vec<StrPart>),
    Bool(bool),
    List(Vec<Expr>),
    Ident(String),
    /// `recv.name` (no parentheses)
    Member { recv: Box<Expr>, name: String },
    /// `name(args)`, `recv.name(args)`, `recv.name { |x| ... }`
    Call { recv: Option<Box<Expr>>, name: String, args: Vec<Arg>, block: Option<Block> },
    Unary { op: UnOp, expr: Box<Expr> },
    Binary { op: BinOp, left: Box<Expr>, right: Box<Expr> },
}

#[derive(Debug, PartialEq)]
pub enum StrPart {
    Lit(String),
    Interp(Expr),
}

#[derive(Debug, PartialEq)]
pub struct Arg {
    pub name: Option<String>,
    pub value: Expr,
}

#[derive(Debug, PartialEq)]
pub struct Block {
    pub params: Vec<String>,
    pub body: Vec<Stmt>,
}

#[derive(Debug, Clone, Copy, PartialEq, Eq, Structural)]
pub enum UnOp {
    Not,
    Neg,
}

#[derive(Debug, Clone, Copy, PartialEq, Eq, Structural)]
pub enum BinOp {
    Add,
    Sub,
    Mul,
    Div,
    Eq,
    NotEq,
    Lt,
    LtEq,
    Gt,
    GtEq,
    And,
    Or,
}

// ---- mathematical values ----

pub struct SpecNumber {
    pub digits: Seq<char>,
    pub unit: Option<Unit>,
}

pub enum SpecStmt {
    Profile { name: Seq<char>, body: Seq<SpecStmt> },
    Check { name: Seq<char>, tags: Seq<Seq<char>>, severity: Severity, body: Seq<SpecStmt> },
    Function { name: Seq<char>, params: Seq<Seq<char>>, body: Seq<SpecStmt> },
    Import { path: Seq<char> },
    Rule { name: Seq<char>, pages: Option<SpecExpr>, body: Seq<SpecStmt> },
    Const { name: Seq<char>, value: SpecExpr },
    Assign { name: Seq<char>, value: SpecExpr },
    Assert { cond: SpecExpr, message: Option<SpecExpr>, source: Seq<char>, line: nat },
    Expr(SpecExpr),
}

pub enum SpecExpr {
    Int(i64),
    Float(SpecNumber),
    Str(Seq<SpecStrPart>),
    Bool(bool),
    List(Seq<SpecExpr>),
    Ident(Seq<char>),
    Member { recv: Box<SpecExpr>, name: Seq<char> },
    Call { recv: Option<Box<SpecExpr>>, name: Seq<char>, args: Seq<SpecArg>, block: Option<SpecBlock> },
    Unary { op: UnOp, expr: Box<SpecExpr> },
    Binary { op: BinOp, left: Box<SpecExpr>, right: Box<SpecExpr> },
}

pub enum SpecStrPart {
    Lit(Seq<char>),
    Interp(SpecExpr),
}

pub struct SpecArg {
    pub name: Option<Seq<char>>,
    pub value: SpecExpr,
}

pub struct SpecBlock {
    pub params: Seq<Seq<char>>,
    pub body: Seq<SpecStmt>,
}

pub open spec fn strings_view(v: Seq<String>) -> Seq<Seq<char>> {
    v.map_values(|s: String| s@)
}

pub open spec fn opt_string_view(o: Option<String>) -> Option<Seq<char>> {
    match o {
        Some(s) => Some(s@),
        None => None,
    }
}

pub open spec fn number_view(n: Number) -> SpecNumber {
    SpecNumber { digits: n.digits@, unit: n.unit }
}

pub open spec fn expr_view(e: Expr) -> SpecExpr
    decreases e,
{
    match e {
        Expr::Int(n) => SpecExpr::Int(n),
        Expr::Float(n) => SpecExpr::Float(number_view(n)),
        Expr::Str(parts) => SpecExpr::Str(parts_view(parts@)),
        Expr::Bool(b) => SpecExpr::Bool(b),
        Expr::List(items) => SpecExpr::List(exprs_view(items@)),
        Expr::Ident(s) => SpecExpr::Ident(s@),
        Expr::Member { recv, name } => SpecExpr::Member {
            recv: Box::new(expr_view(*recv)),
            name: name@,
        },
        Expr::Call { recv, name, args, block } => SpecExpr::Call {
            recv: match recv {
                Some(r) => Some(Box::new(expr_view(*r))),
                None => None,
            },
            name: name@,
            args: args_view(args@),
            block: match block {
                Some(b) => Some(block_view(b)),
                None => None,
            },
        },
        Expr::Unary { op, expr } => SpecExpr::Unary { op, expr: Box::new(expr_view(*expr)) },
        Expr::Binary { op, left, right } => SpecExpr::Binary {
            op,
            left: Box::new(expr_view(*left)),
            right: Box::new(expr_view(*right)),
        },
    }
}

pub open spec fn exprs_view(s: Seq<Expr>) -> Seq<SpecExpr>
    decreases s,
{
    if s.len() == 0 {
        seq![]
    } else {
        seq![expr_view(s[0])] + exprs_view(s.drop_first())
    }
}

pub open spec fn part_view(p: StrPart) -> SpecStrPart
    decreases p,
{
    match p {
        StrPart::Lit(l) => SpecStrPart::Lit(l@),
        StrPart::Interp(e) => SpecStrPart::Interp(expr_view(e)),
    }
}

pub open spec fn parts_view(s: Seq<StrPart>) -> Seq<SpecStrPart>
    decreases s,
{
    if s.len() == 0 {
        seq![]
    } else {
        seq![part_view(s[0])] + parts_view(s.drop_first())
    }
}

pub open spec fn arg_view(a: Arg) -> SpecArg
    decreases a,
{
    SpecArg { name: opt_string_view(a.name), value: expr_view(a.value) }
}

pub open spec fn args_view(s: Seq<Arg>) -> Seq<SpecArg>
    decreases s,
{
    if s.len() == 0 {
        seq![]
    } else {
        seq![arg_view(s[0])] + args_view(s.drop_first())
    }
}

pub open spec fn block_view(b: Block) -> SpecBlock
    decreases b,
{
    SpecBlock { params: strings_view(b.params@), body: stmts_view(b.body@) }
}

pub open spec fn stmt_view(s: Stmt) -> SpecStmt
    decreases s,
{
    match s {
        Stmt::Profile { name, body } => SpecStmt::Profile { name: name@, body: stmts_view(body@) },
        Stmt::Check { name, tags, severity, body } => SpecStmt::Check {
            name: name@,
            tags: strings_view(tags@),
            severity,
            body: stmts_view(body@),
        },
        Stmt::Function { name, params, body } => SpecStmt::Function {
            name: name@,
            params: strings_view(params@),
            body: stmts_view(body@),
        },
        Stmt::Import { path } => SpecStmt::Import { path: path@ },
        Stmt::Rule { name, pages, body } => SpecStmt::Rule {
            name: name@,
            pages: match pages {
                Some(e) => Some(expr_view(e)),
                None => None,
            },
            body: stmts_view(body@),
        },
        Stmt::Const { name, value } => SpecStmt::Const { name: name@, value: expr_view(value) },
        Stmt::Assign { name, value } => SpecStmt::Assign { name: name@, value: expr_view(value) },
        Stmt::Assert { cond, message, source, line } => SpecStmt::Assert {
            cond: expr_view(cond),
            message: match message {
                Some(m) => Some(expr_view(m)),
                None => None,
            },
            source: source@,
            line: line as nat,
        },
        Stmt::Expr(e) => SpecStmt::Expr(expr_view(e)),
    }
}

pub open spec fn stmts_view(s: Seq<Stmt>) -> Seq<SpecStmt>
    decreases s,
{
    if s.len() == 0 {
        seq![]
    } else {
        seq![stmt_view(s[0])] + stmts_view(s.drop_first())
    }
}

impl View for Expr {
    type V = SpecExpr;

    open spec fn view(&self) -> SpecExpr {
        expr_view(*self)
    }
}

impl View for Stmt {
    type V = SpecStmt;

    open spec fn view(&self) -> SpecStmt {
        stmt_view(*self)
    }
}


// ---- lengths and elements of the views ----

pub proof fn lemma_exprs_view(s: Seq<Expr>)
    ensures
        exprs_view(s).len() == s.len(),
        forall|i: int| 0 <= i < s.len() ==> #[trigger] exprs_view(s)[i] == expr_view(s[i]),
    decreases s.len(),
{
    if s.len() > 0 {
        lemma_exprs_view(s.drop_first());
        assert forall|i: int| 0 <= i < s.len() implies #[trigger] exprs_view(s)[i] == expr_view(
            s[i],
        ) by {
            if i > 0 {
                assert(s.drop_first()[i - 1] == s[i]);
            }
        }
    }
}

pub proof fn lemma_parts_view(s: Seq<StrPart>)
    ensures
        parts_view(s).len() == s.len(),
        forall|i: int| 0 <= i < s.len() ==> #[trigger] parts_view(s)[i] == part_view(s[i]),
    decreases s.len(),
{
    if s.len() > 0 {
        lemma_parts_view(s.drop_first());
        assert forall|i: int| 0 <= i < s.len() implies #[trigger] parts_view(s)[i] == part_view(
            s[i],
        ) by {
            if i > 0 {
                assert(s.drop_first()[i - 1] == s[i]);
            }
        }
    }
}

pub proof fn lemma_args_view(s: Seq<Arg>)
    ensures
        args_view(s).len() == s.len(),
        forall|i: int| 0 <= i < s.len() ==> #[trigger] args_view(s)[i] == arg_view(s[i]),
    decreases s.len(),
{
    if s.len() > 0 {
        lemma_args_view(s.drop_first());
        assert forall|i: int| 0 <= i < s.len() implies #[trigger] args_view(s)[i] == arg_view(
            s[i],
        ) by {
            if i > 0 {
                assert(s.drop_first()[i - 1] == s[i]);
            }
        }
    }
}

pub proof fn lemma_stmts_view(s: Seq<Stmt>)
    ensures
        stmts_view(s).len() == s.len(),
        forall|i: int| 0 <= i < s.len() ==> #[trigger] stmts_view(s)[i] == stmt_view(s[i]),
    decreases s.len(),
{
    if s.len() > 0 {
        lemma_stmts_view(s.drop_first());
        assert forall|i: int| 0 <= i < s.len() implies #[trigger] stmts_view(s)[i] == stmt_view(
            s[i],
        ) by {
            if i > 0 {
                assert(s.drop_first()[i - 1] == s[i]);
            }
        }
    }
}

// ---- source reconstruction (automatic `require` messages) ----

/// A plain number written as `Display` writes its value: no leading zeros,
/// no trailing zeros after the point, and no point at all for a whole
/// number (`2.50` is `2.5`, `3.0` is `3`).
pub open spec fn plain_number_text(d: Seq<char>) -> Seq<char> {
    let p = dot_pos(d, 0);
    let ip = strip_leading_zeros(d.subrange(0, p));
    let fp = if p < d.len() { strip_trailing_zeros(d.subrange(p + 1, d.len() as int)) } else { seq!['0'] };
    if fp == seq!['0'] {
        ip
    } else {
        ip + seq!['.'] + fp
    }
}

/// How a number literal is written back: a length in millimetres,
/// centimetres or inches as written (`3mm`), anything else by its value.
pub open spec fn number_text(n: SpecNumber) -> Seq<char> {
    match n.unit {
        Some(Unit::Mm) => n.digits + seq!['m', 'm'],
        Some(Unit::Cm) => n.digits + seq!['c', 'm'],
        Some(Unit::In) => n.digits + seq!['i', 'n'],
        _ => plain_number_text(n.digits),
    }
}

/// The symbol of a binary operator.
pub open spec fn binop_text(op: BinOp) -> Seq<char> {
    match op {
        BinOp::Add => seq!['+'],
        BinOp::Sub => seq!['-'],
        BinOp::Mul => seq!['*'],
        BinOp::Div => seq!['/'],
        BinOp::Eq => seq!['=', '='],
        BinOp::NotEq => seq!['!', '='],
        BinOp::Lt => seq!['<'],
        BinOp::LtEq => seq!['<', '='],
        BinOp::Gt => seq!['>'],
        BinOp::GtEq => seq!['>', '='],
        BinOp::And => seq!['&', '&'],
        BinOp::Or => seq!['|', '|'],
    }
}

/// The text of an expression, as its source would read.
pub open spec fn expr_text(e: SpecExpr) -> Seq<char>
    decreases e,
{
    match e {
        SpecExpr::Int(n) => i64_text(n),
        SpecExpr::Float(n) => number_text(n),
        SpecExpr::Bool(b) => if b { seq!['t', 'r', 'u', 'e'] } else { seq!['f', 'a', 'l', 's', 'e'] },
        SpecExpr::Str(parts) => seq!['"'] + parts_text(parts) + seq!['"'],
        SpecExpr::List(items) => seq!['['] + list_text(items) + seq![']'],
        SpecExpr::Ident(n) => n,
        SpecExpr::Member { recv, name } => expr_text(*recv) + seq!['.'] + name,
        SpecExpr::Call { recv, name, args, block } => {
            let prefix = match recv {
                Some(r) => expr_text(*r) + seq!['.'],
                None => seq![],
            };
            let suffix = if block is Some { seq![' ', '{', ' ', '.', '.', '.', ' ', '}'] } else { seq![] };
            prefix + name + seq!['('] + args_text(args) + seq![')'] + suffix
        },
        SpecExpr::Unary { op, expr } => match op {
            UnOp::Not => seq!['!'] + expr_text(*expr),
            UnOp::Neg => seq!['-'] + expr_text(*expr),
        },
        SpecExpr::Binary { op, left, right } => expr_text(*left) + seq![' '] + binop_text(op)
            + seq![' '] + expr_text(*right),
    }
}

/// Items written one after another, separated by `, `.
pub open spec fn list_text(items: Seq<SpecExpr>) -> Seq<char>
    decreases items,
{
    if items.len() == 0 {
        seq![]
    } else if items.len() == 1 {
        expr_text(items[0])
    } else {
        expr_text(items[0]) + seq![',', ' '] + list_text(items.drop_first())
    }
}

/// The pieces of a string: literal text as is, interpolations as `#{...}`.
pub open spec fn parts_text(parts: Seq<SpecStrPart>) -> Seq<char>
    decreases parts,
{
    if parts.len() == 0 {
        seq![]
    } else {
        let first = match parts[0] {
            SpecStrPart::Lit(l) => l,
            SpecStrPart::Interp(e) => seq!['#', '{'] + expr_text(e) + seq!['}'],
        };
        first + parts_text(parts.drop_first())
    }
}

/// Call arguments separated by `, `, named ones as `name: value`.
pub open spec fn args_text(args: Seq<SpecArg>) -> Seq<char>
    decreases args,
{
    if args.len() == 0 {
        seq![]
    } else {
        let first = match args[0].name {
            Some(n) => n + seq![':', ' '] + expr_text(args[0].value),
            None => expr_text(args[0].value),
        };
        if args.len() == 1 {
            first
        } else {
            first + seq![',', ' '] + args_text(args.drop_first())
        }
    }
}

/// Appends `plain_number_text(d)`.
fn push_plain_number(out: &mut Vec<char>, d: &Vec<char>)
    ensures
        final(out)@ == old(out)@ + plain_number_text(d@),
{
    let mut p: usize = 0;
    while p < d.len() && d[p] != '.'
        invariant
            p <= d.len(),
            dot_pos(d@, p as int) == dot_pos(d@, 0),
        decreases d.len() - p,
    {
        p = p + 1;
    }
    let mut a: usize = 0;
    while p > 0 && a < p - 1 && d[a] == '0'
        invariant
            a <= p <= d.len(),
            p == 0 ==> a == 0,
            p > 0 ==> a < p,
            strip_leading_zeros(d@.subrange(0, p as int)) == strip_leading_zeros(
                d@.subrange(a as int, p as int),
            ),
        decreases p - a,
    {
        assert(d@.subrange(a as int, p as int).drop_first() =~= d@.subrange(a + 1, p as int));
        a = a + 1;
    }
    let ghost ip = strip_leading_zeros(d@.subrange(0, p as int));
    if p == 0 {
        out.push('0');
        assert(strip_leading_zeros(d@.subrange(0, 0)) =~= seq!['0']);
    } else {
        assert(d@.subrange(a as int, p as int)[0] == d@[a as int]);
        assert(strip_leading_zeros(d@.subrange(a as int, p as int)) == d@.subrange(a as int, p as int));
        let v = slice_chars(d, a, p);
        push_all(out, &v);
    }
    assert(out@ == old(out)@ + ip);
    if p < d.len() {
        let start = p + 1;
        let ghost frac = d@.subrange(start as int, d.len() as int);
        let mut b: usize = d.len();
        while b - start > 1 && d[b - 1] == '0'
            invariant
                start <= b <= d.len(),
                strip_trailing_zeros(frac) == strip_trailing_zeros(d@.subrange(start as int, b as int)),
            decreases b,
        {
            assert(d@.subrange(start as int, b as int).drop_last() =~= d@.subrange(start as int, b - 1));
            b = b - 1;
        }
        let ghost fp = strip_trailing_zeros(frac);
        if b == start {
            assert(fp =~= seq!['0']);
        } else {
            assert(fp == d@.subrange(start as int, b as int));
            if !(b - start == 1 && d[start] == '0') {
                assert(fp != seq!['0']) by {
                    if fp.len() == 1 {
                        assert(fp[0] == d@[start as int]);
                    }
                }
                out.push('.');
                let v = slice_chars(d, start, b);
                push_all(out, &v);
                assert(out@ =~= old(out)@ + ip + seq!['.'] + fp);
            } else {
                assert(fp =~= seq!['0']);
            }
        }
    }
}

/// Appends how a number literal is written back.
fn push_number(out: &mut Vec<char>, n: &Number)
    ensures
        final(out)@ == old(out)@ + number_text(number_view(*n)),
{
    let d = chars_of(n.digits.as_str());
    match n.unit {
        Some(Unit::Mm) => {
            push_all(out, &d);
            push_str(out, "mm");
            proof { reveal_strlit("mm"); }
            assert(final(out)@ =~= old(out)@ + number_text(number_view(*n)));
        },
        Some(Unit::Cm) => {
            push_all(out, &d);
            push_str(out, "cm");
            proof { reveal_strlit("cm"); }
            assert(final(out)@ =~= old(out)@ + number_text(number_view(*n)));
        },
        Some(Unit::In) => {
            push_all(out, &d);
            push_str(out, "in");
            proof { reveal_strlit("in"); }
            assert(final(out)@ =~= old(out)@ + number_text(number_view(*n)));
        },
        _ => push_plain_number(out, &d),
    }
}

fn push_chars(out: &mut Vec<char>, s: &String)
    ensures
        final(out)@ == old(out)@ + s@,
{
    push_str(out, s.as_str());
}

/// Appends the text of an expression, as its source would read.
pub fn push_expr_text(out: &mut Vec<char>, e: &Expr)
    ensures
        final(out)@ == old(out)@ + expr_text(e@),
    decreases e@, 1nat,
{
    let ghost x = e@;
    match e {
        Expr::Int(n) => push_i64(out, *n),
        Expr::Float(n) => push_number(out, n),
        Expr::Bool(b) => {
            if *b {
                out.push('t');
                out.push('r');
                out.push('u');
                out.push('e');
            } else {
                out.push('f');
                out.push('a');
                out.push('l');
                out.push('s');
                out.push('e');
            }
            assert(final(out)@ =~= old(out)@ + expr_text(e@));
        },
        Expr::Str(_) => push_str_expr_text(out, e),
        Expr::List(_) => push_list_expr_text(out, e),
        Expr::Ident(name) => push_chars(out, name),
        Expr::Member { recv, name } => {
            proof {
                assert(decreases_to!(x => x->Member_recv));
            }
            push_expr_text(out, recv);
            out.push('.');
            push_chars(out, name);
            assert(final(out)@ =~= old(out)@ + expr_text(e@));
        },
        Expr::Call { .. } => push_call_expr_text(out, e),
        Expr::Unary { op, expr } => {
            match op {
                UnOp::Not => out.push('!'),
                UnOp::Neg => out.push('-'),
            }
            proof {
                assert(decreases_to!(x => x->Unary_expr));
            }
            push_expr_text(out, expr);
            assert(final(out)@ =~= old(out)@ + expr_text(e@));
        },
        Expr::Binary { op, left, right } => {
            proof {
                assert(decreases_to!(x => x->Binary_left));
                assert(decreases_to!(x => x->Binary_right));
            }
            push_expr_text(out, left);
            out.push(' ');
            match op {
                BinOp::Add => out.push('+'),
                BinOp::Sub => out.push('-'),
                BinOp::Mul => out.push('*'),
                BinOp::Div => out.push('/'),
                BinOp::Eq => {
                    out.push('=');
                    out.push('=');
                },
                BinOp::NotEq => {
                    out.push('!');
                    out.push('=');
                },
                BinOp::Lt => out.push('<'),
                BinOp::LtEq => {
                    out.push('<');
                    out.push('=');
                },
                BinOp::Gt => out.push('>'),
                BinOp::GtEq => {
                    out.push('>');
                    out.push('=');
                },
                BinOp::And => {
                    out.push('&');
                    out.push('&');
                },
                BinOp::Or => {
                    out.push('|');
                    out.push('|');
                },
            }
            out.push(' ');
            push_expr_text(out, right);
            assert(final(out)@ =~= old(out)@ + expr_text(e@));
        },
    }
}


fn push_str_expr_text(out: &mut Vec<char>, e: &Expr)
    requires
        e is Str,
    ensures
        final(out)@ == old(out)@ + expr_text(e@),
    decreases e@, 0nat,
{
    let ghost x = e@;
    let parts = match e {
        Expr::Str(parts) => parts,
        _ => { return; },
    };
    {
            out.push('"');
            let ghost start = out@;
            let ghost pv = parts_view(parts@);
            proof {
                lemma_parts_view(parts@);
            }
            let mut i: usize = 0;
            assert(pv.subrange(0, pv.len() as int) =~= pv);
            while i < parts.len()
                invariant
                    x == e@,
                    x == SpecExpr::Str(pv),
                    pv == parts_view(parts@),
                    pv.len() == parts@.len(),
                    forall|k: int| 0 <= k < parts@.len() ==> #[trigger] pv[k] == part_view(parts@[k]),
                    i <= parts.len(),
                    out@ + parts_text(pv.subrange(i as int, pv.len() as int)) == start + parts_text(pv),
                decreases parts.len() - i,
            {
                let ghost before = out@;
                let ghost rest = pv.subrange(i as int, pv.len() as int);
                assert(rest.drop_first() =~= pv.subrange(i + 1, pv.len() as int));
                assert(rest[0] == pv[i as int]);
                match &parts[i] {
                    StrPart::Lit(l) => push_chars(out, l),
                    StrPart::Interp(inner) => {
                        proof {
                            assert(decreases_to!(x => x->Str_0));
                            assert(decreases_to!(pv => pv[i as int]));
                            assert(pv[i as int] == SpecStrPart::Interp(inner@));
                            assert(decreases_to!(pv[i as int] => pv[i as int]->Interp_0));
                        }
                        out.push('#');
                        out.push('{');
                        push_expr_text(out, inner);
                        out.push('}');
                    },
                }
                i = i + 1;
                assert(out@ + parts_text(pv.subrange(i as int, pv.len() as int)) =~= before
                    + parts_text(rest));
            }
            assert(pv.subrange(i as int, pv.len() as int) =~= Seq::<SpecStrPart>::empty());
            out.push('"');
            assert(final(out)@ =~= old(out)@ + expr_text(e@));
        
    }
}

fn push_list_expr_text(out: &mut Vec<char>, e: &Expr)
    requires
        e is List,
    ensures
        final(out)@ == old(out)@ + expr_text(e@),
    decreases e@, 0nat,
{
    let ghost x = e@;
    let items = match e {
        Expr::List(items) => items,
        _ => { return; },
    };
    {
            out.push('[');
            let ghost start = out@;
            let ghost iv = exprs_view(items@);
            proof {
                lemma_exprs_view(items@);
            }
            let mut i: usize = 0;
            assert(iv.subrange(0, iv.len() as int) =~= iv);
            while i < items.len()
                invariant
                    x == e@,
                    x == SpecExpr::List(iv),
                    iv == exprs_view(items@),
                    iv.len() == items@.len(),
                    forall|k: int| 0 <= k < items@.len() ==> #[trigger] iv[k] == expr_view(items@[k]),
                    i <= items.len(),
                    i == 0 ==> out@ == start,
                    i > 0 ==> out@ + list_sep_text(iv.subrange(i as int, iv.len() as int)) == start
                        + list_text(iv),
                decreases items.len() - i,
            {
                let ghost before = out@;
                let ghost rest = iv.subrange(i as int, iv.len() as int);
                assert(rest.drop_first() =~= iv.subrange(i + 1, iv.len() as int));
                if i > 0 {
                    out.push(',');
                    out.push(' ');
                }
                proof {
                    assert(decreases_to!(x => x->List_0));
                    assert(decreases_to!(iv => iv[i as int]));
                }
                push_expr_text(out, &items[i]);
                i = i + 1;
                proof {
                    if i == 1 {
                        assert(start + list_text(iv) =~= out@ + list_sep_text(rest.drop_first())) by {
                            lemma_list_text_split(iv);
                        }
                    } else {
                        assert(list_sep_text(rest) =~= seq![',', ' '] + expr_text(iv[i - 1])
                            + list_sep_text(rest.drop_first()));
                    }
                }
            }
            proof {
                if items.len() == 0 {
                    assert(list_text(iv) =~= Seq::<char>::empty());
                } else {
                    assert(iv.subrange(i as int, iv.len() as int) =~= Seq::<SpecExpr>::empty());
                }
            }
            out.push(']');
            assert(final(out)@ =~= old(out)@ + expr_text(e@));
        
    }
}

fn push_call_expr_text(out: &mut Vec<char>, e: &Expr)
    requires
        e is Call,
    ensures
        final(out)@ == old(out)@ + expr_text(e@),
    decreases e@, 0nat,
{
    let ghost x = e@;
    let (recv, name, args, block) = match e {
        Expr::Call { recv, name, args, block } => (recv, name, args, block),
        _ => { return; },
    };
    {
            match recv {
                Some(r) => {
                    proof {
                        assert(decreases_to!(x => x->Call_recv));
                        assert(decreases_to!(x->Call_recv => x->Call_recv->0));
                    }
                    push_expr_text(out, r);
                    out.push('.');
                },
                None => {},
            }
            let ghost after_recv = out@;
            push_chars(out, name);
            out.push('(');
            let ghost start = out@;
            let ghost av = args_view(args@);
            proof {
                lemma_args_view(args@);
            }
            let mut i: usize = 0;
            while i < args.len()
                invariant
                    x == e@,
                    x is Call,
                    x->Call_args == av,
                    av == args_view(args@),
                    av.len() == args@.len(),
                    forall|k: int| 0 <= k < args@.len() ==> #[trigger] av[k] == arg_view(args@[k]),
                    i <= args.len(),
                    i == 0 ==> out@ == start,
                    i > 0 ==> out@ + args_sep_text(av.subrange(i as int, av.len() as int)) == start
                        + args_text(av),
                decreases args.len() - i,
            {
                let ghost rest = av.subrange(i as int, av.len() as int);
                assert(rest.drop_first() =~= av.subrange(i + 1, av.len() as int));
                if i > 0 {
                    out.push(',');
                    out.push(' ');
                }
                let ghost before_arg = out@;
                match &args[i].name {
                    Some(n) => {
                        push_chars(out, n);
                        out.push(':');
                        out.push(' ');
                    },
                    None => {},
                }
                proof {
                    assert(decreases_to!(x => x->Call_args));
                    assert(decreases_to!(av => av[i as int]));
                    assert(decreases_to!(av[i as int] => av[i as int].value));
                }
                push_expr_text(out, &args[i].value);
                i = i + 1;
                proof {
                    assert(out@ =~= before_arg + arg_text(av[i - 1]));
                    if i == 1 {
                        lemma_args_text_split(av);
                        assert(start + args_text(av) =~= out@ + args_sep_text(rest.drop_first()));
                    } else {
                        assert(args_sep_text(rest) =~= seq![',', ' '] + arg_text(av[i - 1])
                            + args_sep_text(rest.drop_first()));
                    }
                }
            }
            proof {
                if args.len() == 0 {
                    assert(args_text(av) =~= Seq::<char>::empty());
                } else {
                    assert(av.subrange(i as int, av.len() as int) =~= Seq::<SpecArg>::empty());
                }
            }
            out.push(')');
            if block.is_some() {
                push_str(out, " { ... }");
                proof { reveal_strlit(" { ... }"); }
            }
            assert(final(out)@ =~= old(out)@ + expr_text(e@));
        
    }
}

/// Each remaining item preceded by `, `.
pub open spec fn list_sep_text(items: Seq<SpecExpr>) -> Seq<char>
    decreases items.len(),
{
    if items.len() == 0 {
        seq![]
    } else {
        seq![',', ' '] + expr_text(items[0]) + list_sep_text(items.drop_first())
    }
}

proof fn lemma_list_text_split(items: Seq<SpecExpr>)
    requires
        items.len() > 0,
    ensures
        list_text(items) == expr_text(items[0]) + list_sep_text(items.drop_first()),
    decreases items.len(),
{
    if items.len() == 1 {
        assert(list_sep_text(items.drop_first()) =~= Seq::<char>::empty());
        assert(list_text(items) =~= expr_text(items[0]) + Seq::<char>::empty());
    } else {
        lemma_list_text_split(items.drop_first());
        assert(items.drop_first()[0] == items[1]);
        assert(list_sep_text(items.drop_first()) =~= seq![',', ' '] + expr_text(items[1])
            + list_sep_text(items.drop_first().drop_first()));
    }
}

/// How one argument is written.
pub open spec fn arg_text(a: SpecArg) -> Seq<char> {
    match a.name {
        Some(n) => n + seq![':', ' '] + expr_text(a.value),
        None => expr_text(a.value),
    }
}

/// Each remaining argument preceded by `, `.
pub open spec fn args_sep_text(args: Seq<SpecArg>) -> Seq<char>
    decreases args.len(),
{
    if args.len() == 0 {
        seq![]
    } else {
        seq![',', ' '] + arg_text(args[0]) + args_sep_text(args.drop_first())
    }
}

proof fn lemma_args_text_split(args: Seq<SpecArg>)
    requires
        args.len() > 0,
    ensures
        args_text(args) == arg_text(args[0]) + args_sep_text(args.drop_first()),
    decreases args.len(),
{
    if args.len() == 1 {
        assert(args_sep_text(args.drop_first()) =~= Seq::<char>::empty());
        assert(args_text(args) =~= arg_text(args[0]) + Seq::<char>::empty());
    } else {
        lemma_args_text_split(args.drop_first());
        assert(args.drop_first()[0] == args[1]);
        assert(args_sep_text(args.drop_first()) =~= seq![',', ' '] + arg_text(args[1])
            + args_sep_text(args.drop_first().drop_first()));
    }
}

impl Expr {
    /// The text of the expression, as its source would read (what `Display`
    /// writes).
    pub fn to_source(&self) -> (r: String)
        ensures
            r@ == expr_text(self@),
    {
        let mut out: Vec<char> = Vec::new();
        push_expr_text(&mut out, self);
        crate::text::string_of(&out)
    }
}


pub proof fn lemma_stmts_push(s: Seq<Stmt>, x: Stmt)
    ensures
        stmts_view(s.push(x)) == stmts_view(s).push(stmt_view(x)),
{
    lemma_stmts_view(s);
    lemma_stmts_view(s.push(x));
    assert(stmts_view(s.push(x)) =~= stmts_view(s).push(stmt_view(x)));
}

pub proof fn lemma_exprs_push(s: Seq<Expr>, x: Expr)
    ensures
        exprs_view(s.push(x)) == exprs_view(s).push(expr_view(x)),
{
    lemma_exprs_view(s);
    lemma_exprs_view(s.push(x));
    assert(exprs_view(s.push(x)) =~= exprs_view(s).push(expr_view(x)));
}

pub proof fn lemma_args_push(s: Seq<Arg>, x: Arg)
    ensures
        args_view(s.push(x)) == args_view(s).push(arg_view(x)),
{
    lemma_args_view(s);
    lemma_args_view(s.push(x));
    assert(args_view(s.push(x)) =~= args_view(s).push(arg_view(x)));
}

pub proof fn lemma_parts_push(s: Seq<StrPart>, x: StrPart)
    ensures
        parts_view(s.push(x)) == parts_view(s).push(part_view(x)),
{
    lemma_parts_view(s);
    lemma_parts_view(s.push(x));
    assert(parts_view(s.push(x)) =~= parts_view(s).push(part_view(x)));
}

} // verus!
