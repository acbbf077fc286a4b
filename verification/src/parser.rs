//! Recursive-descent parser for the PDFLang language.
//!
//! The grammar is written twice: once as spec functions over the token
//! sequence (what a parse *is*: the value read and where reading stops, or
//! the error and where it is reported), once as the executable parser, each
//! function of which is proved to compute exactly its spec function.
//!
//! ```text
//! program    := stmts <eof>
//! stmt       := profile STR body | check STR (tags: [STR,...] | severity: IDENT)* body
//!             | function IDENT ( IDENT... ) body | import STR
//!             | rule STR [on expr] body | const IDENT = expr
//!             | (assert | require) expr [, expr] | IDENT = expr | expr
//! expr       := or;  or := and (|| and)*;  and := equality (&& equality)*
//! equality   := comparison ((== | !=) comparison)*
//! comparison := term ((<= | >= | < | >) term)*
//! term       := factor ((+ | -) factor)*;  factor := unary ((* | /) unary)*
//! unary      := ! unary | - unary | postfix
//! postfix    := primary (. IDENT [args] [block])*
//! primary    := INT | FLOAT | UNIT | true | false | STR | [ expr, ... ] | ( expr )
//!             | IDENT :: IDENT [args [block]] | IDENT args [block] | IDENT
//! ```
//!
//! Each `#{...}` interpolation is parsed from its own source, which is always
//! shorter than the text it sits in: that length bounds the nesting.

use vstd::prelude::*;
use crate::ast::{
    expr_text, exprs_view, args_view, stmts_view, strings_view, parts_view, block_view, expr_view,
    stmt_view, lemma_exprs_view, lemma_args_view, lemma_stmts_view, lemma_parts_view, lemma_stmts_push,
    lemma_exprs_push, lemma_args_push, lemma_parts_push, part_view, arg_view, Arg, BinOp,
    Block, Expr, Number, SpecArg, SpecBlock, SpecExpr, SpecNumber, SpecStmt, SpecStrPart, Stmt,
    StrPart, UnOp,
};
use crate::fmt::{decimal_text, i64_text, push_i64, render_token};
use crate::lexer::{
    lex, lemma_lex_ends_with_eof, segs_view, spec_tokenize, toks_view, LexOutcome, LexResult,
    SpecStrSeg, SpecTok, SpecToken, StrSeg, Tok, Token, Unit,
};
use crate::report::Severity;
use crate::text::{chars_of, nat_text, push_all, push_str, push_usize, string_of};

verus! {

broadcast use vstd::string::group_string_axioms;

#[derive(Debug)]
pub struct ParseError {
    pub message: String,
    pub line: usize,
    pub col: usize,
}

pub struct SpecParseError {
    pub message: Seq<char>,
    pub line: nat,
    pub col: nat,
}

impl View for ParseError {
    type V = SpecParseError;

    open spec fn view(&self) -> SpecParseError {
        SpecParseError { message: self.message@, line: self.line as nat, col: self.col as nat }
    }
}

impl ParseError {
    /// The message as `Display` shows it:
    /// `syntax error at line L, column C: message`.
    pub fn to_string(&self) -> (r: String)
        ensures
            r@ == "syntax error at line "@ + nat_text(self.line as nat) + ", column "@ + nat_text(
                self.col as nat,
            ) + ": "@ + self.message@,
    {
        let mut v: Vec<char> = Vec::new();
        push_str(&mut v, "syntax error at line ");
        push_usize(&mut v, self.line);
        push_str(&mut v, ", column ");
        push_usize(&mut v, self.col);
        push_str(&mut v, ": ");
        push_str(&mut v, self.message.as_str());
        string_of(&v)
    }
}

/// Why parsing stops: a syntax error, or an integer literal beyond `i64`
/// inside an interpolation (on which the lexer cannot go on).
pub enum PErr {
    Syntax(SpecParseError),
    Overflow,
}

// ---------------------------------------------------------------------------
// Tokens as the parser sees them.
// ---------------------------------------------------------------------------

/// How a token is named in a message (`Display` of `Tok`).
pub open spec fn tok_text(t: SpecTok) -> Seq<char> {
    match t {
        SpecTok::Ident(s) => s,
        SpecTok::Str(_) => "string"@,
        SpecTok::Newline => "line break"@,
        SpecTok::Eof => "end of file"@,
        SpecTok::Int(n) => "Int("@ + i64_text(n) + ")"@,
        SpecTok::Float(s) => "Float("@ + decimal_text(s) + ")"@,
        SpecTok::UnitNum(_, raw) => "UnitNum("@ + raw + ")"@,
        SpecTok::Comment(s) => "Comment("@ + s + ")"@,
        SpecTok::True => "True"@,
        SpecTok::False => "False"@,
        SpecTok::Profile => "Profile"@,
        SpecTok::Check => "Check"@,
        SpecTok::Const => "Const"@,
        SpecTok::Assert => "Assert"@,
        SpecTok::Require => "Require"@,
        SpecTok::Function => "Function"@,
        SpecTok::Import => "Import"@,
        SpecTok::Rule => "Rule"@,
        SpecTok::On => "On"@,
        SpecTok::LBrace => "LBrace"@,
        SpecTok::RBrace => "RBrace"@,
        SpecTok::LParen => "LParen"@,
        SpecTok::RParen => "RParen"@,
        SpecTok::LBracket => "LBracket"@,
        SpecTok::RBracket => "RBracket"@,
        SpecTok::Comma => "Comma"@,
        SpecTok::Colon => "Colon"@,
        SpecTok::ColonColon => "ColonColon"@,
        SpecTok::Dot => "Dot"@,
        SpecTok::Pipe => "Pipe"@,
        SpecTok::Eq => "Eq"@,
        SpecTok::EqEq => "EqEq"@,
        SpecTok::NotEq => "NotEq"@,
        SpecTok::Lt => "Lt"@,
        SpecTok::LtEq => "LtEq"@,
        SpecTok::Gt => "Gt"@,
        SpecTok::GtEq => "GtEq"@,
        SpecTok::Plus => "Plus"@,
        SpecTok::Minus => "Minus"@,
        SpecTok::Star => "Star"@,
        SpecTok::Slash => "Slash"@,
        SpecTok::Bang => "Bang"@,
        SpecTok::AndAnd => "AndAnd"@,
        SpecTok::OrOr => "OrOr"@,
    }
}

/// The token at `p`.
pub open spec fn tk(ts: Seq<SpecToken>, p: int) -> SpecTok {
    ts[p].tok
}

/// The token after `p` (the last one when `p` is the last).
pub open spec fn tk2(ts: Seq<SpecToken>, p: int) -> SpecTok {
    if p + 1 < ts.len() {
        ts[p + 1].tok
    } else {
        ts[ts.len() - 1].tok
    }
}

/// The position after `p`; reading never moves past the last token.
pub open spec fn adv(ts: Seq<SpecToken>, p: int) -> int {
    if p < ts.len() - 1 {
        p + 1
    } else {
        p
    }
}

/// An error reported at the token at `p`.
pub open spec fn err_at(ts: Seq<SpecToken>, p: int, message: Seq<char>) -> PErr {
    PErr::Syntax(SpecParseError { message, line: ts[p].line, col: ts[p].col })
}

/// `expected <what>, found <token at p>`.
pub open spec fn expected(ts: Seq<SpecToken>, p: int, what: Seq<char>) -> PErr {
    err_at(ts, p, "expected "@ + what + ", found "@ + tok_text(tk(ts, p)))
}

/// The position after the line breaks at `p`.
pub open spec fn skip_nl(ts: Seq<SpecToken>, p: int) -> int
    decreases ts.len() - p,
{
    if 0 <= p < ts.len() - 1 && tk(ts, p) is Newline {
        skip_nl(ts, p + 1)
    } else {
        p
    }
}

/// Reading the token `t`, described as `what` when it is missing.
pub open spec fn expect(ts: Seq<SpecToken>, p: int, t: SpecTok, what: Seq<char>) -> Result<int, PErr> {
    if tk(ts, p) == t {
        Ok(adv(ts, p))
    } else {
        Err(expected(ts, p, what))
    }
}

/// Whether any piece of a string is an interpolation.
pub open spec fn has_interp(segs: Seq<SpecStrSeg>) -> bool {
    exists|k: int| 0 <= k < segs.len() && segs[k] is Interp
}

/// The literal pieces of a string, joined.
pub open spec fn lits_text(segs: Seq<SpecStrSeg>) -> Seq<char>
    decreases segs.len(),
{
    if segs.len() == 0 {
        seq![]
    } else {
        let first = match segs[0] {
            SpecStrSeg::Lit(l) => l,
            SpecStrSeg::Interp(_) => seq![],
        };
        first + lits_text(segs.drop_first())
    }
}

/// A string without interpolation, described as `what`.
pub open spec fn string_literal(ts: Seq<SpecToken>, p: int, what: Seq<char>) -> Result<(Seq<char>, int), PErr> {
    match tk(ts, p) {
        SpecTok::Str(segs) => if has_interp(segs) {
            Err(err_at(ts, p, what + " cannot contain interpolation"@))
        } else {
            Ok((lits_text(segs), adv(ts, p)))
        },
        other => Err(err_at(ts, p, "expected "@ + what + " in quotes, found "@ + tok_text(other))),
    }
}

/// The token that closes a list of statements.
pub enum End {
    Eof,
    RBrace,
}

pub open spec fn end_tok(e: End) -> SpecTok {
    match e {
        End::Eof => SpecTok::Eof,
        End::RBrace => SpecTok::RBrace,
    }
}

/// The binary operator a token is at a precedence level (0 = `||` ...
/// 5 = `*` `/`).
pub open spec fn bin_op(level: nat, t: SpecTok) -> Option<BinOp> {
    if level == 0 {
        if t is OrOr { Some(BinOp::Or) } else { None }
    } else if level == 1 {
        if t is AndAnd { Some(BinOp::And) } else { None }
    } else if level == 2 {
        if t is EqEq { Some(BinOp::Eq) } else if t is NotEq { Some(BinOp::NotEq) } else { None }
    } else if level == 3 {
        if t is LtEq {
            Some(BinOp::LtEq)
        } else if t is GtEq {
            Some(BinOp::GtEq)
        } else if t is Lt {
            Some(BinOp::Lt)
        } else if t is Gt {
            Some(BinOp::Gt)
        } else {
            None
        }
    } else if level == 4 {
        if t is Plus { Some(BinOp::Add) } else if t is Minus { Some(BinOp::Sub) } else { None }
    } else {
        if t is Star { Some(BinOp::Mul) } else if t is Slash { Some(BinOp::Div) } else { None }
    }
}

pub open spec fn perr_interp() -> PErr {
    PErr::Syntax(SpecParseError { message: seq![], line: 0, col: 0 })
}

// ---------------------------------------------------------------------------
// The grammar. `b` bounds the length of an interpolation that can still be
// parsed; the measure is (b, stage, tokens left, rank).
// ---------------------------------------------------------------------------

/// Statements up to `end` (which is left for the caller to read).
pub open spec fn stmts_loop(ts: Seq<SpecToken>, p: int, end: End, acc: Seq<SpecStmt>, b: nat) -> Result<(Seq<SpecStmt>, int), PErr>
    decreases b, 0nat, ts.len() - p, 50nat,
{
    let p1 = skip_nl(ts, p);
    if !(p <= p1 < ts.len()) {
        Err(perr_interp())
    } else if tk(ts, p1) == end_tok(end) || tk(ts, p1) is Eof {
        Ok((acc, p1))
    } else {
        match stmt(ts, p1, b) {
            Ok((s, p2)) => {
                if !(p1 < p2 < ts.len()) {
                    Err(perr_interp())
                } else if tk(ts, p2) is Newline {
                    stmts_loop(ts, adv(ts, p2), end, acc.push(s), b)
                } else if tk(ts, p2) == end_tok(end) || tk(ts, p2) is Eof {
                    stmts_loop(ts, p2, end, acc.push(s), b)
                } else {
                    Err(expected(ts, p2, "end of line after statement"@))
                }
            },
            Err(e) => Err(e),
        }
    }
}

/// `{ stmts }`, after any line breaks.
pub open spec fn braced_body(ts: Seq<SpecToken>, p: int, b: nat) -> Result<(Seq<SpecStmt>, int), PErr>
    decreases b, 0nat, ts.len() - p, 46nat,
{
    let p1 = skip_nl(ts, p);
    match expect(ts, p1, SpecTok::LBrace, "'{'"@) {
        Ok(p2) => if !(p < p2 < ts.len()) {
            Err(perr_interp())
        } else {
            match stmts_loop(ts, p2, End::RBrace, seq![], b) {
                Ok((body, p3)) => match expect(ts, p3, SpecTok::RBrace, "'}'"@) {
                    Ok(p4) => Ok((body, p4)),
                    Err(e) => Err(e),
                },
                Err(e) => Err(e),
            }
        },
        Err(e) => Err(e),
    }
}

/// The tags of `tags: [ ... ]`, after the `[`.
pub open spec fn tags_loop(ts: Seq<SpecToken>, p: int, acc: Seq<Seq<char>>) -> Result<(Seq<Seq<char>>, int), PErr>
    decreases ts.len() - p,
{
    let p1 = skip_nl(ts, p);
    if tk(ts, p1) is RBracket {
        Ok((acc, p1))
    } else {
        match string_literal(ts, p1, "tag"@) {
            Ok((tag, p2)) => {
                let p3 = skip_nl(ts, p2);
                if tk(ts, p3) is Comma {
                    let p4 = adv(ts, p3);
                    if p < p4 <= ts.len() {
                        tags_loop(ts, p4, acc.push(tag))
                    } else {
                        Err(perr_interp())
                    }
                } else {
                    Ok((acc.push(tag), p3))
                }
            },
            Err(e) => Err(e),
        }
    }
}

/// The severity a name gives.
pub open spec fn severity_of(name: Seq<char>) -> Option<Severity> {
    if name == "error"@ {
        Some(Severity::Error)
    } else if name == "warning"@ {
        Some(Severity::Warning)
    } else if name == "info"@ {
        Some(Severity::Info)
    } else {
        None
    }
}

/// The options between a check's name and its body: `tags: [...]` and
/// `severity: error|warning|info`, in any order.
pub open spec fn check_opts(ts: Seq<SpecToken>, p: int, tags: Seq<Seq<char>>, sev: Severity) -> Result<(Seq<Seq<char>>, Severity, int), PErr>
    decreases ts.len() - p,
{
    match tk(ts, p) {
        SpecTok::Ident(w) => if w == "tags"@ {
            match expect(ts, adv(ts, p), SpecTok::Colon, "':' after tags"@) {
                Ok(p1) => match expect(ts, p1, SpecTok::LBracket, "'[' with the tag list"@) {
                    Ok(p2) => match tags_loop(ts, p2, seq![]) {
                        Ok((list, p3)) => match expect(ts, p3, SpecTok::RBracket, "']'"@) {
                            Ok(p4) => if p < p4 <= ts.len() {
                                check_opts(ts, p4, list, sev)
                            } else {
                                Err(perr_interp())
                            },
                            Err(e) => Err(e),
                        },
                        Err(e) => Err(e),
                    },
                    Err(e) => Err(e),
                },
                Err(e) => Err(e),
            }
        } else if w == "severity"@ {
            match expect(ts, adv(ts, p), SpecTok::Colon, "':' after severity"@) {
                Ok(p1) => match tk(ts, p1) {
                    SpecTok::Ident(level) => match severity_of(level) {
                        Some(s) => {
                            let p2 = adv(ts, p1);
                            if p < p2 <= ts.len() {
                                check_opts(ts, p2, tags, s)
                            } else {
                                Err(perr_interp())
                            }
                        },
                        None => Err(expected(ts, p1, "severity error, warning or info"@)),
                    },
                    _ => Err(expected(ts, p1, "severity error, warning or info"@)),
                },
                Err(e) => Err(e),
            }
        } else {
            Ok((tags, sev, p))
        },
        _ => Ok((tags, sev, p)),
    }
}

/// A function's parameters, after the `(`.
pub open spec fn params_loop(ts: Seq<SpecToken>, p: int, acc: Seq<Seq<char>>) -> Result<(Seq<Seq<char>>, int), PErr>
    decreases ts.len() - p,
{
    let p1 = skip_nl(ts, p);
    match tk(ts, p1) {
        SpecTok::RParen => Ok((acc, p1)),
        SpecTok::Ident(x) => {
            let p2 = adv(ts, p1);
            let p3 = if tk(ts, p2) is Comma { adv(ts, p2) } else { p2 };
            if p < p3 <= ts.len() {
                params_loop(ts, p3, acc.push(x))
            } else {
                Err(perr_interp())
            }
        },
        other => Err(err_at(ts, p1, "expected parameter, found "@ + tok_text(other))),
    }
}

/// The message when the body of a rule with a selection does not follow.
pub open spec fn rule_body_message() -> Seq<char> {
    "expected '{' with the rule body — if the 'on' selection uses a block, wrap it in parentheses: rule \"x\" on (doc.pages.filter { ... }) { ... }"@
}

/// One statement.
pub open spec fn stmt(ts: Seq<SpecToken>, p: int, b: nat) -> Result<(SpecStmt, int), PErr>
    decreases b, 0nat, ts.len() - p, 48nat,
{
    let p1 = adv(ts, p);
    match tk(ts, p) {
        SpecTok::Profile => if !(p < p1 < ts.len()) {
            Err(perr_interp())
        } else {
            match string_literal(ts, p1, "profile name"@) {
                Ok((name, p2)) => match braced_body(ts, p2, b) {
                    Ok((body, p3)) => Ok((SpecStmt::Profile { name, body }, p3)),
                    Err(e) => Err(e),
                },
                Err(e) => Err(e),
            }
        },
        SpecTok::Check => if !(p < p1 < ts.len()) {
            Err(perr_interp())
        } else {
            match string_literal(ts, p1, "check name"@) {
                Ok((name, p2)) => match check_opts(ts, p2, seq![], Severity::Error) {
                    Ok((tags, severity, p3)) => if !(p < p3 < ts.len()) {
                        Err(perr_interp())
                    } else {
                        match braced_body(ts, p3, b) {
                            Ok((body, p4)) => Ok((SpecStmt::Check { name, tags, severity, body }, p4)),
                            Err(e) => Err(e),
                        }
                    },
                    Err(e) => Err(e),
                },
                Err(e) => Err(e),
            }
        },
        SpecTok::Function => if !(p < p1 < ts.len()) {
            Err(perr_interp())
        } else {
            let p2 = adv(ts, p1);
            match tk(ts, p1) {
                SpecTok::Ident(name) => match expect(ts, p2, SpecTok::LParen, "'(' with the parameters"@) {
                    Ok(p3) => match params_loop(ts, p3, seq![]) {
                        Ok((params, p4)) => match expect(ts, p4, SpecTok::RParen, "')'"@) {
                            Ok(p5) => if !(p < p5 < ts.len()) {
                                Err(perr_interp())
                            } else {
                                match braced_body(ts, p5, b) {
                                    Ok((body, p6)) => Ok((SpecStmt::Function { name, params, body }, p6)),
                                    Err(e) => Err(e),
                                }
                            },
                            Err(e) => Err(e),
                        },
                        Err(e) => Err(e),
                    },
                    Err(e) => Err(e),
                },
                other => Err(err_at(ts, p2, "expected function name, found "@ + tok_text(other))),
            }
        },
        SpecTok::Import => match string_literal(ts, p1, "import path"@) {
            Ok((path, p2)) => Ok((SpecStmt::Import { path }, p2)),
            Err(e) => Err(e),
        },
        SpecTok::Rule => if !(p < p1 < ts.len()) {
            Err(perr_interp())
        } else {
            match string_literal(ts, p1, "rule name"@) {
                Ok((name, p2)) => {
                    let sel: Result<(Option<SpecExpr>, int), PErr> = if tk(ts, p2) is On {
                        match expr(ts, adv(ts, p2), b) {
                            Ok((e, p3)) => Ok((Some(e), p3)),
                            Err(e) => Err(e),
                        }
                    } else {
                        Ok((None, p2))
                    };
                    match sel {
                        Ok((pages, p3)) => {
                            let p4 = skip_nl(ts, p3);
                            if pages is Some && !(tk(ts, p4) is LBrace) {
                                Err(err_at(ts, p4, rule_body_message()))
                            } else if !(p < p4 < ts.len()) {
                                Err(perr_interp())
                            } else {
                                match braced_body(ts, p4, b) {
                                    Ok((body, p5)) => Ok((SpecStmt::Rule { name, pages, body }, p5)),
                                    Err(e) => Err(e),
                                }
                            }
                        },
                        Err(e) => Err(e),
                    }
                },
                Err(e) => Err(e),
            }
        },
        SpecTok::Const => if !(p < p1 < ts.len()) {
            Err(perr_interp())
        } else {
            let p2 = adv(ts, p1);
            match tk(ts, p1) {
                SpecTok::Ident(name) => match expect(ts, p2, SpecTok::Eq, "'='"@) {
                    Ok(p3) => match expr(ts, p3, b) {
                        Ok((value, p4)) => Ok((SpecStmt::Const { name, value }, p4)),
                        Err(e) => Err(e),
                    },
                    Err(e) => Err(e),
                },
                other => Err(err_at(ts, p2, "expected constant name, found "@ + tok_text(other))),
            }
        },
        SpecTok::Assert => if !(p < p1 < ts.len()) {
            Err(perr_interp())
        } else {
            match expr(ts, p1, b) {
                Ok((cond, p2)) => if tk(ts, p2) is Comma {
                    let p3 = skip_nl(ts, adv(ts, p2));
                    if !(p < p3 < ts.len()) {
                        Err(perr_interp())
                    } else {
                        match expr(ts, p3, b) {
                            Ok((m, p4)) => Ok((SpecStmt::Assert { cond, message: Some(m), source: expr_text(cond), line: ts[p].line }, p4)),
                            Err(e) => Err(e),
                        }
                    }
                } else {
                    Ok((SpecStmt::Assert { cond, message: None, source: expr_text(cond), line: ts[p].line }, p2))
                },
                Err(e) => Err(e),
            }
        },
        SpecTok::Require => if !(p < p1 < ts.len()) {
            Err(perr_interp())
        } else {
            match expr(ts, p1, b) {
                Ok((cond, p2)) => Ok((SpecStmt::Assert { cond, message: None, source: expr_text(cond), line: ts[p].line }, p2)),
                Err(e) => Err(e),
            }
        },
        SpecTok::Ident(name) => if tk2(ts, p) is Eq {
            let p2 = adv(ts, p1);
            if !(p < p2 < ts.len()) {
                Err(perr_interp())
            } else {
                match expr(ts, p2, b) {
                    Ok((value, p3)) => Ok((SpecStmt::Assign { name, value }, p3)),
                    Err(e) => Err(e),
                }
            }
        } else {
            match expr(ts, p, b) {
                Ok((e, p2)) => Ok((SpecStmt::Expr(e), p2)),
                Err(e) => Err(e),
            }
        },
        _ => match expr(ts, p, b) {
            Ok((e, p2)) => Ok((SpecStmt::Expr(e), p2)),
            Err(e) => Err(e),
        },
    }
}

/// An expression.
pub open spec fn expr(ts: Seq<SpecToken>, p: int, b: nat) -> Result<(SpecExpr, int), PErr>
    decreases b, 0nat, ts.len() - p, 41nat,
{
    bin(ts, p, 0, b)
}

/// An expression at precedence level `level` (6: a unary expression).
pub open spec fn bin(ts: Seq<SpecToken>, p: int, level: nat, b: nat) -> Result<(SpecExpr, int), PErr>
    decreases b, 0nat, ts.len() - p, 40 - 2 * (if level <= 6 { level } else { 6 }),
{
    if level >= 6 {
        unary(ts, p, b)
    } else {
        match bin(ts, p, level + 1, b) {
            Ok((left, p1)) => if p <= p1 < ts.len() {
                bin_loop(ts, p1, level, left, b)
            } else {
                Err(perr_interp())
            },
            Err(e) => Err(e),
        }
    }
}

/// More operands of level `level` after `left`.
pub open spec fn bin_loop(ts: Seq<SpecToken>, p: int, level: nat, left: SpecExpr, b: nat) -> Result<(SpecExpr, int), PErr>
    decreases b, 0nat, ts.len() - p, 39 - 2 * (if level <= 5 { level } else { 5 }),
{
    if level >= 6 {
        Ok((left, p))
    } else {
        match bin_op(level, tk(ts, p)) {
            Some(op) => {
                let p1 = skip_nl(ts, adv(ts, p));
                if !(p < p1 < ts.len()) {
                    Err(perr_interp())
                } else {
                    match bin(ts, p1, level + 1, b) {
                        Ok((right, p2)) => if p < p2 < ts.len() {
                            bin_loop(ts, p2, level, SpecExpr::Binary { op, left: Box::new(left), right: Box::new(right) }, b)
                        } else {
                            Err(perr_interp())
                        },
                        Err(e) => Err(e),
                    }
                }
            },
            None => Ok((left, p)),
        }
    }
}

/// `!x`, `-x`, or a postfix expression.
pub open spec fn unary(ts: Seq<SpecToken>, p: int, b: nat) -> Result<(SpecExpr, int), PErr>
    decreases b, 0nat, ts.len() - p, 27nat,
{
    let p1 = adv(ts, p);
    if tk(ts, p) is Bang || tk(ts, p) is Minus {
        if !(p < p1 < ts.len()) {
            Err(perr_interp())
        } else {
            match unary(ts, p1, b) {
                Ok((e, p2)) => {
                    let op = if tk(ts, p) is Bang { UnOp::Not } else { UnOp::Neg };
                    Ok((SpecExpr::Unary { op, expr: Box::new(e) }, p2))
                },
                Err(e) => Err(e),
            }
        }
    } else {
        postfix(ts, p, b)
    }
}

/// A primary expression followed by member accesses and method calls.
pub open spec fn postfix(ts: Seq<SpecToken>, p: int, b: nat) -> Result<(SpecExpr, int), PErr>
    decreases b, 0nat, ts.len() - p, 26nat,
{
    match primary(ts, p, b) {
        Ok((e, p1)) => if p <= p1 < ts.len() {
            postfix_loop(ts, p1, e, b)
        } else {
            Err(perr_interp())
        },
        Err(e) => Err(e),
    }
}

/// `.name`, `.name(args) [block]` or `.name block` after `e`.
pub open spec fn postfix_loop(ts: Seq<SpecToken>, p: int, e: SpecExpr, b: nat) -> Result<(SpecExpr, int), PErr>
    decreases b, 0nat, ts.len() - p, 25nat,
{
    if tk(ts, p) is Dot {
        let p1 = adv(ts, p);
        let p2 = adv(ts, p1);
        match tk(ts, p1) {
            SpecTok::Ident(name) => if !(p < p2 < ts.len()) {
                Err(perr_interp())
            } else if tk(ts, p2) is LParen {
                match call_args(ts, p2, b) {
                    Ok((args, p3)) => if !(p < p3 < ts.len()) {
                        Err(perr_interp())
                    } else {
                        match maybe_block(ts, p3, b) {
                            Ok((block, p4)) => if p < p4 < ts.len() {
                                postfix_loop(ts, p4, SpecExpr::Call { recv: Some(Box::new(e)), name, args, block }, b)
                            } else {
                                Err(perr_interp())
                            },
                            Err(x) => Err(x),
                        }
                    },
                    Err(x) => Err(x),
                }
            } else if tk(ts, p2) is LBrace {
                match maybe_block(ts, p2, b) {
                    Ok((block, p3)) => if p < p3 < ts.len() {
                        postfix_loop(ts, p3, SpecExpr::Call { recv: Some(Box::new(e)), name, args: seq![], block }, b)
                    } else {
                        Err(perr_interp())
                    },
                    Err(x) => Err(x),
                }
            } else {
                postfix_loop(ts, p2, SpecExpr::Member { recv: Box::new(e), name }, b)
            },
            other => Err(err_at(ts, p2, "expected name after '.', found "@ + tok_text(other))),
        }
    } else {
        Ok((e, p))
    }
}

/// `( [name:] expr, ... )`.
pub open spec fn call_args(ts: Seq<SpecToken>, p: int, b: nat) -> Result<(Seq<SpecArg>, int), PErr>
    decreases b, 0nat, ts.len() - p, 45nat,
{
    match expect(ts, p, SpecTok::LParen, "'('"@) {
        Ok(p1) => if !(p < p1 < ts.len()) {
            Err(perr_interp())
        } else {
            match args_loop(ts, p1, seq![], b) {
                Ok((args, p2)) => match expect(ts, skip_nl(ts, p2), SpecTok::RParen, "')'"@) {
                    Ok(p3) => Ok((args, p3)),
                    Err(e) => Err(e),
                },
                Err(e) => Err(e),
            }
        },
        Err(e) => Err(e),
    }
}

/// The arguments of a call, after the `(`.
pub open spec fn args_loop(ts: Seq<SpecToken>, p: int, acc: Seq<SpecArg>, b: nat) -> Result<(Seq<SpecArg>, int), PErr>
    decreases b, 0nat, ts.len() - p, 44nat,
{
    let p1 = skip_nl(ts, p);
    if !(p <= p1 < ts.len()) {
        Err(perr_interp())
    } else if tk(ts, p1) is RParen {
        Ok((acc, p1))
    } else {
        let named = tk(ts, p1) is Ident && tk2(ts, p1) is Colon;
        let name = if named { Some(tk(ts, p1)->Ident_0) } else { None };
        let p2 = if named { skip_nl(ts, adv(ts, adv(ts, p1))) } else { p1 };
        if !(p1 <= p2 < ts.len()) {
            Err(perr_interp())
        } else {
            match expr(ts, p2, b) {
                Ok((value, p3)) => {
                    let p4 = skip_nl(ts, p3);
                    let acc1 = acc.push(SpecArg { name, value });
                    if tk(ts, p4) is Comma {
                        let p5 = adv(ts, p4);
                        if p < p5 < ts.len() {
                            args_loop(ts, p5, acc1, b)
                        } else {
                            Err(perr_interp())
                        }
                    } else {
                        Ok((acc1, p4))
                    }
                },
                Err(e) => Err(e),
            }
        }
    }
}

/// The parameters of a block, after the opening `|`.
pub open spec fn block_params(ts: Seq<SpecToken>, p: int, acc: Seq<Seq<char>>) -> Result<(Seq<Seq<char>>, int), PErr>
    decreases ts.len() - p,
{
    let p1 = adv(ts, p);
    match tk(ts, p) {
        SpecTok::Ident(n) => {
            let p2 = adv(ts, p1);
            match tk(ts, p1) {
                SpecTok::Comma => if p < p2 <= ts.len() {
                    block_params(ts, p2, acc.push(n))
                } else {
                    Err(perr_interp())
                },
                SpecTok::Pipe => Ok((acc.push(n), p2)),
                other => Err(err_at(ts, p2, "expected ',' or '|', found "@ + tok_text(other))),
            }
        },
        other => Err(err_at(ts, p1, "expected block parameter, found "@ + tok_text(other))),
    }
}

/// A `{ |a, b| body }` block — the `|params|` part is optional.
pub open spec fn maybe_block(ts: Seq<SpecToken>, p: int, b: nat) -> Result<(Option<SpecBlock>, int), PErr>
    decreases b, 0nat, ts.len() - p, 45nat,
{
    if !(tk(ts, p) is LBrace) {
        Ok((None, p))
    } else {
        let p1 = skip_nl(ts, adv(ts, p));
        let params: Result<(Seq<Seq<char>>, int), PErr> = if tk(ts, p1) is Pipe {
            block_params(ts, adv(ts, p1), seq![])
        } else {
            Ok((seq![], p1))
        };
        match params {
            Ok((params, p2)) => if !(p < p2 < ts.len()) {
                Err(perr_interp())
            } else {
                match stmts_loop(ts, p2, End::RBrace, seq![], b) {
                    Ok((body, p3)) => match expect(ts, p3, SpecTok::RBrace, "'}'"@) {
                        Ok(p4) => Ok((Some(SpecBlock { params, body }), p4)),
                        Err(e) => Err(e),
                    },
                    Err(e) => Err(e),
                }
            },
            Err(e) => Err(e),
        }
    }
}

/// The items of a list literal, after the `[`.
pub open spec fn list_loop(ts: Seq<SpecToken>, p: int, acc: Seq<SpecExpr>, b: nat) -> Result<(Seq<SpecExpr>, int), PErr>
    decreases b, 0nat, ts.len() - p, 44nat,
{
    let p1 = skip_nl(ts, p);
    if !(p <= p1 < ts.len()) {
        Err(perr_interp())
    } else if tk(ts, p1) is RBracket {
        Ok((acc, p1))
    } else {
        match expr(ts, p1, b) {
            Ok((item, p2)) => {
                let p3 = skip_nl(ts, p2);
                if tk(ts, p3) is Comma {
                    let p4 = adv(ts, p3);
                    if p < p4 < ts.len() {
                        list_loop(ts, p4, acc.push(item), b)
                    } else {
                        Err(perr_interp())
                    }
                } else {
                    Ok((acc.push(item), p3))
                }
            },
            Err(e) => Err(e),
        }
    }
}

/// The pieces of a string literal from piece `i` on, interpolations parsed.
pub open spec fn parts_from(segs: Seq<SpecStrSeg>, i: int, line: nat, col: nat, ts: Seq<SpecToken>, p: int, b: nat) -> Result<Seq<SpecStrPart>, PErr>
    decreases b, 0nat, ts.len() - p, segs.len() - i,
{
    if i < 0 || i >= segs.len() {
        Ok(seq![])
    } else {
        let first: Result<SpecStrPart, PErr> = match segs[i] {
            SpecStrSeg::Lit(l) => Ok(SpecStrPart::Lit(l)),
            SpecStrSeg::Interp(src) => if src.len() < b {
                match expr_source(src, line, col, src.len()) {
                    Ok(e) => Ok(SpecStrPart::Interp(e)),
                    Err(x) => Err(x),
                }
            } else {
                Err(perr_interp())
            },
        };
        match first {
            Ok(part) => match parts_from(segs, i + 1, line, col, ts, p, b) {
                Ok(rest) => Ok(seq![part] + rest),
                Err(x) => Err(x),
            },
            Err(x) => Err(x),
        }
    }
}

/// A primary expression.
pub open spec fn primary(ts: Seq<SpecToken>, p: int, b: nat) -> Result<(SpecExpr, int), PErr>
    decreases b, 0nat, ts.len() - p, 24nat,
{
    let p1 = adv(ts, p);
    let (line, col) = (ts[p].line, ts[p].col);
    let progress = p < p1 < ts.len();
    match tk(ts, p) {
        SpecTok::Int(n) => Ok((SpecExpr::Int(n), p1)),
        SpecTok::Float(d) => Ok((SpecExpr::Float(SpecNumber { digits: d, unit: None }), p1)),
        SpecTok::UnitNum(q, _) => Ok((SpecExpr::Float(SpecNumber { digits: q.number, unit: Some(q.unit) }), p1)),
        SpecTok::True => Ok((SpecExpr::Bool(true), p1)),
        SpecTok::False => Ok((SpecExpr::Bool(false), p1)),
        SpecTok::Str(segs) => if !progress {
            Err(perr_interp())
        } else {
            match parts_from(segs, 0, line, col, ts, p1, b) {
                Ok(parts) => Ok((SpecExpr::Str(parts), p1)),
                Err(x) => Err(x),
            }
        },
        SpecTok::LBracket => if !progress {
            Err(perr_interp())
        } else {
            match list_loop(ts, p1, seq![], b) {
                Ok((items, p2)) => match expect(ts, p2, SpecTok::RBracket, "']'"@) {
                    Ok(p3) => Ok((SpecExpr::List(items), p3)),
                    Err(x) => Err(x),
                },
                Err(x) => Err(x),
            }
        },
        SpecTok::LParen => if !progress {
            Err(perr_interp())
        } else {
            let p2 = skip_nl(ts, p1);
            if !(p < p2 < ts.len()) {
                Err(perr_interp())
            } else {
                match expr(ts, p2, b) {
                    Ok((e, p3)) => match expect(ts, skip_nl(ts, p3), SpecTok::RParen, "')'"@) {
                        Ok(p4) => Ok((e, p4)),
                        Err(x) => Err(x),
                    },
                    Err(x) => Err(x),
                }
            }
        },
        SpecTok::Ident(name) => if !progress {
            Err(perr_interp())
        } else if tk(ts, p1) is ColonColon {
            let p2 = adv(ts, p1);
            let p3 = adv(ts, p2);
            match tk(ts, p2) {
                SpecTok::Ident(func) => {
                    let full = name + "::"@ + func;
                    if tk(ts, p3) is LParen {
                        match call_args(ts, p3, b) {
                            Ok((args, p4)) => if !(p < p4 < ts.len()) {
                                Err(perr_interp())
                            } else {
                                match maybe_block(ts, p4, b) {
                                    Ok((block, p5)) => Ok((SpecExpr::Call { recv: None, name: full, args, block }, p5)),
                                    Err(x) => Err(x),
                                }
                            },
                            Err(x) => Err(x),
                        }
                    } else {
                        Ok((SpecExpr::Call { recv: None, name: full, args: seq![], block: None }, p3))
                    }
                },
                other => Err(err_at(ts, p3, "expected function name after '::', found "@ + tok_text(other))),
            }
        } else if tk(ts, p1) is LParen {
            match call_args(ts, p1, b) {
                Ok((args, p2)) => if !(p < p2 < ts.len()) {
                    Err(perr_interp())
                } else {
                    match maybe_block(ts, p2, b) {
                        Ok((block, p3)) => Ok((SpecExpr::Call { recv: None, name, args, block }, p3)),
                        Err(x) => Err(x),
                    }
                },
                Err(x) => Err(x),
            }
        } else {
            Ok((SpecExpr::Ident(name), p1))
        },
        other => Err(PErr::Syntax(SpecParseError { message: "unexpected expression: "@ + tok_text(other), line, col })),
    }
}

/// An interpolation's source: its own tokens, one expression, then nothing
/// but line breaks. A lexical error is reported at the string that holds
/// the interpolation.
pub open spec fn expr_source(src: Seq<char>, line: nat, col: nat, b: nat) -> Result<SpecExpr, PErr>
    decreases b, 1nat, 0int, 0nat,
{
    match spec_tokenize(src, false) {
        LexOutcome::Tokens(ts) => if ts.len() == 0 {
            Err(perr_interp())
        } else {
            match expr(ts, 0, b) {
                Ok((e, p1)) => {
                    let p2 = skip_nl(ts, p1);
                    if tk(ts, p2) is Eof {
                        Ok(e)
                    } else {
                        Err(err_at(ts, p2, "unexpected token in interpolation: "@ + tok_text(tk(ts, p2))))
                    }
                },
                Err(x) => Err(x),
            }
        },
        LexOutcome::Failed(e) => Err(PErr::Syntax(SpecParseError { message: "in interpolation: "@ + e.message, line, col })),
        LexOutcome::Overflow => Err(PErr::Overflow),
    }
}

/// A whole program, from the tokens of `source`.
pub open spec fn spec_parse(source: Seq<char>) -> Result<Seq<SpecStmt>, PErr> {
    match spec_tokenize(source, false) {
        LexOutcome::Tokens(ts) => match stmts_loop(ts, 0, End::Eof, seq![], source.len()) {
            Ok((prog, _)) => Ok(prog),
            Err(e) => Err(e),
        },
        LexOutcome::Failed(e) => Err(PErr::Syntax(SpecParseError { message: e.message, line: e.line, col: e.col })),
        LexOutcome::Overflow => Err(PErr::Overflow),
    }
}


// ---------------------------------------------------------------------------
// The executable parser.
// ---------------------------------------------------------------------------

/// Why parsing stopped, as executable values.
pub enum PError {
    Syntax(ParseError),
    Overflow,
}

impl View for PError {
    type V = PErr;

    open spec fn view(&self) -> PErr {
        match self {
            PError::Syntax(e) => PErr::Syntax(e@),
            PError::Overflow => PErr::Overflow,
        }
    }
}

/// The token views of `ts`.
pub open spec fn tv(ts: &Vec<Token>) -> Seq<SpecToken> {
    toks_view(ts@)
}

/// A token list the parser can read: it ends with `Eof`.
pub open spec fn wf(ts: &Vec<Token>) -> bool {
    &&& ts.len() > 0
    &&& tv(ts).last().tok is Eof
}

/// An executable result computes the spec one (values by `f`).
pub open spec fn agrees<A, B>(r: Result<(A, usize), PError>, s: Result<(B, int), PErr>, f: spec_fn(A) -> B) -> bool {
    match s {
        Ok((v, q)) => r matches Ok((x, y)) && f(x) == v && y == q,
        Err(e) => r matches Err(x) && x@ == e,
    }
}

/// Reading stays inside the tokens, and moves at least `min` tokens on.
pub open spec fn moved<A>(r: Result<(A, usize), PError>, p: usize, len: usize, min: int) -> bool {
    r matches Ok((_, q)) ==> p + min <= q < len
}

proof fn lemma_tv_index(ts: &Vec<Token>, p: int)
    requires
        0 <= p < ts.len(),
    ensures
        tv(ts)[p] == ts@[p]@,
        tv(ts).len() == ts.len(),
        tk(tv(ts), p) == ts@[p].tok@,
{
}

fn tok_at(ts: &Vec<Token>, p: usize) -> (t: &Tok)
    requires
        p < ts.len(),
    ensures
        t@ == tk(tv(ts), p as int),
        *t == ts@[p as int].tok,
{
    &ts[p].tok
}

fn adv_exec(ts: &Vec<Token>, p: usize) -> (q: usize)
    requires
        p < ts.len(),
    ensures
        q == adv(tv(ts), p as int),
        p <= q < ts.len(),
        p < ts.len() - 1 ==> q == p + 1,
{
    if p < ts.len() - 1 {
        p + 1
    } else {
        p
    }
}

fn skip_nl_exec(ts: &Vec<Token>, p: usize) -> (q: usize)
    requires
        p < ts.len(),
    ensures
        q == skip_nl(tv(ts), p as int),
        p <= q < ts.len(),
{
    let mut q = p;
    while q < ts.len() - 1 && matches!(ts[q].tok, Tok::Newline)
        invariant
            p <= q < ts.len(),
            skip_nl(tv(ts), q as int) == skip_nl(tv(ts), p as int),
        decreases ts.len() - q,
    {
        q = q + 1;
    }
    q
}

/// Appends how a token is named in a message.
pub fn push_tok_text(out: &mut Vec<char>, t: &Tok)
    ensures
        final(out)@ == old(out)@ + tok_text(t@),
{
    match t {
        Tok::Ident(s) => push_str(out, s.as_str()),
        Tok::Str(_) => push_str(out, "string"),
        Tok::Newline => push_str(out, "line break"),
        Tok::Eof => push_str(out, "end of file"),
        Tok::Int(n) => {
            push_str(out, "Int(");
            push_i64(out, *n);
            push_str(out, ")");
        },
        Tok::Float(_) => {
            push_str(out, "Float(");
            let mut inner: Vec<char> = Vec::new();
            render_token(&mut inner, t);
            push_all(out, &inner);
            push_str(out, ")");
        },
        Tok::UnitNum(_, raw) => {
            push_str(out, "UnitNum(");
            push_str(out, raw.as_str());
            push_str(out, ")");
        },
        Tok::Comment(c) => {
            push_str(out, "Comment(");
            push_str(out, c.as_str());
            push_str(out, ")");
        },
        Tok::True => push_str(out, "True"),
        Tok::False => push_str(out, "False"),
        Tok::Profile => push_str(out, "Profile"),
        Tok::Check => push_str(out, "Check"),
        Tok::Const => push_str(out, "Const"),
        Tok::Assert => push_str(out, "Assert"),
        Tok::Require => push_str(out, "Require"),
        Tok::Function => push_str(out, "Function"),
        Tok::Import => push_str(out, "Import"),
        Tok::Rule => push_str(out, "Rule"),
        Tok::On => push_str(out, "On"),
        Tok::LBrace => push_str(out, "LBrace"),
        Tok::RBrace => push_str(out, "RBrace"),
        Tok::LParen => push_str(out, "LParen"),
        Tok::RParen => push_str(out, "RParen"),
        Tok::LBracket => push_str(out, "LBracket"),
        Tok::RBracket => push_str(out, "RBracket"),
        Tok::Comma => push_str(out, "Comma"),
        Tok::Colon => push_str(out, "Colon"),
        Tok::ColonColon => push_str(out, "ColonColon"),
        Tok::Dot => push_str(out, "Dot"),
        Tok::Pipe => push_str(out, "Pipe"),
        Tok::Eq => push_str(out, "Eq"),
        Tok::EqEq => push_str(out, "EqEq"),
        Tok::NotEq => push_str(out, "NotEq"),
        Tok::Lt => push_str(out, "Lt"),
        Tok::LtEq => push_str(out, "LtEq"),
        Tok::Gt => push_str(out, "Gt"),
        Tok::GtEq => push_str(out, "GtEq"),
        Tok::Plus => push_str(out, "Plus"),
        Tok::Minus => push_str(out, "Minus"),
        Tok::Star => push_str(out, "Star"),
        Tok::Slash => push_str(out, "Slash"),
        Tok::Bang => push_str(out, "Bang"),
        Tok::AndAnd => push_str(out, "AndAnd"),
        Tok::OrOr => push_str(out, "OrOr"),
    }
}

impl Tok {
    /// How the token is named in a message (what `Display` writes).
    pub fn text(&self) -> (r: String)
        ensures
            r@ == tok_text(self@),
    {
        let mut v: Vec<char> = Vec::new();
        push_tok_text(&mut v, self);
        string_of(&v)
    }
}

/// An error at the token at `p`.
fn err_at_exec(ts: &Vec<Token>, p: usize, message: &Vec<char>) -> (r: PError)
    requires
        p < ts.len(),
    ensures
        r@ == err_at(tv(ts), p as int, message@),
{
    PError::Syntax(ParseError { message: string_of(message), line: ts[p].line, col: ts[p].col })
}

/// `expected <what>, found <token at p>`.
fn expected_exec(ts: &Vec<Token>, p: usize, what: &str) -> (r: PError)
    requires
        p < ts.len(),
    ensures
        r@ == expected(tv(ts), p as int, what@),
{
    let mut m: Vec<char> = Vec::new();
    push_str(&mut m, "expected ");
    push_str(&mut m, what);
    push_str(&mut m, ", found ");
    push_tok_text(&mut m, &ts[p].tok);
    assert(m@ =~= "expected "@ + what@ + ", found "@ + tok_text(tk(tv(ts), p as int)));
    err_at_exec(ts, p, &m)
}

/// `<prefix><token text>` as an error at `at`.
fn found_exec(ts: &Vec<Token>, at: usize, prefix: &str, t: &Tok) -> (r: PError)
    requires
        at < ts.len(),
    ensures
        r@ == err_at(tv(ts), at as int, prefix@ + tok_text(t@)),
{
    let mut m: Vec<char> = Vec::new();
    push_str(&mut m, prefix);
    push_tok_text(&mut m, t);
    err_at_exec(ts, at, &m)
}

/// The token kinds `expect` is asked for.
pub enum Kind {
    LBrace,
    RBrace,
    LParen,
    RParen,
    LBracket,
    RBracket,
    Colon,
    Eq,
}

pub open spec fn kind_tok(k: Kind) -> SpecTok {
    match k {
        Kind::LBrace => SpecTok::LBrace,
        Kind::RBrace => SpecTok::RBrace,
        Kind::LParen => SpecTok::LParen,
        Kind::RParen => SpecTok::RParen,
        Kind::LBracket => SpecTok::LBracket,
        Kind::RBracket => SpecTok::RBracket,
        Kind::Colon => SpecTok::Colon,
        Kind::Eq => SpecTok::Eq,
    }
}

fn is_kind(t: &Tok, k: Kind) -> (r: bool)
    ensures
        r == (t@ == kind_tok(k)),
{
    match k {
        Kind::LBrace => matches!(t, Tok::LBrace),
        Kind::RBrace => matches!(t, Tok::RBrace),
        Kind::LParen => matches!(t, Tok::LParen),
        Kind::RParen => matches!(t, Tok::RParen),
        Kind::LBracket => matches!(t, Tok::LBracket),
        Kind::RBracket => matches!(t, Tok::RBracket),
        Kind::Colon => matches!(t, Tok::Colon),
        Kind::Eq => matches!(t, Tok::Eq),
    }
}

fn expect_exec(ts: &Vec<Token>, p: usize, k: Kind, what: &str) -> (r: Result<usize, PError>)
    requires
        p < ts.len(),
    ensures
        match expect(tv(ts), p as int, kind_tok(k), what@) {
            Ok(q) => r matches Ok(y) && y == q,
            Err(e) => r matches Err(x) && x@ == e,
        },
        r matches Ok(q) ==> p <= q < ts.len(),
{
    if is_kind(&ts[p].tok, k) {
        Ok(adv_exec(ts, p))
    } else {
        Err(expected_exec(ts, p, what))
    }
}

fn string_literal_exec(ts: &Vec<Token>, p: usize, what: &str) -> (r: Result<(String, usize), PError>)
    requires
        p < ts.len(),
    ensures
        agrees(r, string_literal(tv(ts), p as int, what@), |x: String| x@),
        r matches Ok((_, q)) ==> p <= q < ts.len(),
{
    match &ts[p].tok {
        Tok::Str(segs) => {
            let ghost sv = segs_view(segs@);
            proof { lemma_tv_index(ts, p as int); }
            let mut text: Vec<char> = Vec::new();
            let mut k: usize = 0;
            assert(sv.subrange(0, sv.len() as int) =~= sv);
            while k < segs.len()
                invariant
                    sv == segs_view(segs@),
                    p < ts.len(),
                    tk(tv(ts), p as int) == SpecTok::Str(sv),
                    k <= segs.len(),
                    !has_interp(sv.subrange(0, k as int)),
                    text@ + lits_text(sv.subrange(k as int, sv.len() as int)) == lits_text(sv),
                decreases segs.len() - k,
            {
                let ghost rest = sv.subrange(k as int, sv.len() as int);
                assert(rest.drop_first() =~= sv.subrange(k + 1, sv.len() as int));
                match &segs[k] {
                    StrSeg::Lit(l) => {
                        let ghost before = text@;
                        push_str(&mut text, l.as_str());
                        assert(text@ + lits_text(sv.subrange(k + 1, sv.len() as int)) =~= before
                            + lits_text(rest));
                    },
                    StrSeg::Interp(_) => {
                        assert(has_interp(sv)) by {
                            assert(sv[k as int] is Interp);
                        }
                        let mut m: Vec<char> = Vec::new();
                        push_str(&mut m, what);
                        push_str(&mut m, " cannot contain interpolation");
                        return Err(err_at_exec(ts, p, &m));
                    },
                }
                k = k + 1;
                assert(!has_interp(sv.subrange(0, k as int))) by {
                    if has_interp(sv.subrange(0, k as int)) {
                        let j = choose|j: int| 0 <= j < k && sv.subrange(0, k as int)[j] is Interp;
                        assert(sv.subrange(0, k - 1)[j] is Interp || j == k - 1);
                    }
                }
            }
            assert(sv.subrange(0, k as int) =~= sv);
            assert(sv.subrange(k as int, sv.len() as int) =~= Seq::<SpecStrSeg>::empty());
            assert(text@ =~= lits_text(sv));
            Ok((string_of(&text), adv_exec(ts, p)))
        },
        other => {
            let mut m: Vec<char> = Vec::new();
            push_str(&mut m, "expected ");
            push_str(&mut m, what);
            push_str(&mut m, " in quotes, found ");
            push_tok_text(&mut m, other);
            Err(err_at_exec(ts, p, &m))
        },
    }
}


fn is_end(t: &Tok, end: &End) -> (r: bool)
    ensures
        r == (t@ == end_tok(*end) || t@ is Eof),
{
    match end {
        End::Eof => matches!(t, Tok::Eof),
        End::RBrace => matches!(t, Tok::RBrace | Tok::Eof),
    }
}

/// Statements up to `end`.
fn stmts_exec(ts: &Vec<Token>, p: usize, end: End, b: usize) -> (r: Result<(Vec<Stmt>, usize), PError>)
    requires
        wf(ts),
        p < ts.len(),
    ensures
        agrees(r, stmts_loop(tv(ts), p as int, end, seq![], b as nat), |v: Vec<Stmt>| stmts_view(v@)),
        moved(r, p, ts.len(), 0),
    decreases b, 0nat, ts.len() - p, 50nat,
{
    let mut acc: Vec<Stmt> = Vec::new();
    let mut q = p;
    assert(stmts_view(acc@) =~= Seq::<SpecStmt>::empty());
    loop
        invariant
            wf(ts),
            p <= q < ts.len(),
            stmts_loop(tv(ts), p as int, end, seq![], b as nat) == stmts_loop(
                tv(ts),
                q as int,
                end,
                stmts_view(acc@),
                b as nat,
            ),
        decreases ts.len() - q,
    {
        let q1 = skip_nl_exec(ts, q);
        if is_end(&ts[q1].tok, &end) {
            return Ok((acc, q1));
        }
        match stmt_exec(ts, q1, b) {
            Ok((st, q2)) => {
                let ghost before = stmts_view(acc@);
                proof {
                    lemma_stmts_push(acc@, st);
                }
                if matches!(ts[q2].tok, Tok::Newline) {
                    acc.push(st);
                    q = adv_exec(ts, q2);
                } else if is_end(&ts[q2].tok, &end) {
                    acc.push(st);
                    q = q2;
                } else {
                    return Err(expected_exec(ts, q2, "end of line after statement"));
                }
            },
            Err(e) => {
                return Err(e);
            },
        }
    }
}

/// `{ stmts }`, after any line breaks.
fn braced_body_exec(ts: &Vec<Token>, p: usize, b: usize) -> (r: Result<(Vec<Stmt>, usize), PError>)
    requires
        wf(ts),
        p < ts.len(),
    ensures
        agrees(r, braced_body(tv(ts), p as int, b as nat), |v: Vec<Stmt>| stmts_view(v@)),
        moved(r, p, ts.len(), 1),
    decreases b, 0nat, ts.len() - p, 46nat,
{
    let p1 = skip_nl_exec(ts, p);
    let p2 = match expect_exec(ts, p1, Kind::LBrace, "'{'") {
        Ok(q) => q,
        Err(e) => {
            return Err(e);
        },
    };
    assert(p2 == p1 + 1);
    let (body, p3) = match stmts_exec(ts, p2, End::RBrace, b) {
        Ok(x) => x,
        Err(e) => {
            return Err(e);
        },
    };
    match expect_exec(ts, p3, Kind::RBrace, "'}'") {
        Ok(p4) => Ok((body, p4)),
        Err(e) => Err(e),
    }
}

/// The tags of `tags: [ ... ]`, after the `[`.
fn tags_exec(ts: &Vec<Token>, p: usize) -> (r: Result<(Vec<String>, usize), PError>)
    requires
        wf(ts),
        p < ts.len(),
    ensures
        agrees(r, tags_loop(tv(ts), p as int, seq![]), |v: Vec<String>| strings_view(v@)),
        moved(r, p, ts.len(), 0),
{
    let mut acc: Vec<String> = Vec::new();
    let mut q = p;
    assert(strings_view(acc@) =~= Seq::<Seq<char>>::empty());
    loop
        invariant
            wf(ts),
            p <= q < ts.len(),
            tags_loop(tv(ts), p as int, seq![]) == tags_loop(tv(ts), q as int, strings_view(acc@)),
        decreases ts.len() - q,
    {
        let q1 = skip_nl_exec(ts, q);
        if matches!(ts[q1].tok, Tok::RBracket) {
            return Ok((acc, q1));
        }
        let (tag, q2) = match string_literal_exec(ts, q1, "tag") {
            Ok(x) => x,
            Err(e) => {
                return Err(e);
            },
        };
        let q3 = skip_nl_exec(ts, q2);
        let ghost before = strings_view(acc@);
        acc.push(tag);
        assert(strings_view(acc@) =~= before.push(tag@));
        if matches!(ts[q3].tok, Tok::Comma) {
            let q4 = adv_exec(ts, q3);
            assert(q < q4);
            q = q4;
        } else {
            return Ok((acc, q3));
        }
    }
}

fn severity_of_exec(name: &String) -> (r: Option<Severity>)
    ensures
        r == severity_of(name@),
{
    if crate::text::chars_eq_str(&chars_of(name.as_str()), "error") {
        Some(Severity::Error)
    } else if crate::text::chars_eq_str(&chars_of(name.as_str()), "warning") {
        Some(Severity::Warning)
    } else if crate::text::chars_eq_str(&chars_of(name.as_str()), "info") {
        Some(Severity::Info)
    } else {
        None
    }
}

fn str_is(s: &String, lit: &str) -> (r: bool)
    ensures
        r == (s@ == lit@),
{
    crate::text::chars_eq_str(&chars_of(s.as_str()), lit)
}

/// A check's options: `tags: [...]` and `severity: ...`, in any order.
fn check_opts_exec(ts: &Vec<Token>, p: usize) -> (r: Result<(Vec<String>, Severity, usize), PError>)
    requires
        wf(ts),
        p < ts.len(),
    ensures
        match check_opts(tv(ts), p as int, seq![], Severity::Error) {
            Ok((tags, sev, q)) => r matches Ok((t, s, y)) && strings_view(t@) == tags && s == sev
                && y == q,
            Err(e) => r matches Err(x) && x@ == e,
        },
        r matches Ok((_, _, q)) ==> p <= q < ts.len(),
{
    let mut tags: Vec<String> = Vec::new();
    let mut sev = Severity::Error;
    let mut q = p;
    assert(strings_view(tags@) =~= Seq::<Seq<char>>::empty());
    loop
        invariant
            wf(ts),
            p <= q < ts.len(),
            check_opts(tv(ts), p as int, seq![], Severity::Error) == check_opts(
                tv(ts),
                q as int,
                strings_view(tags@),
                sev,
            ),
        decreases ts.len() - q,
    {
        let is_tags = match &ts[q].tok {
            Tok::Ident(w) => {
                if str_is(w, "tags") {
                    1u8
                } else if str_is(w, "severity") {
                    2u8
                } else {
                    0u8
                }
            },
            _ => 0u8,
        };
        if is_tags == 0 {
            return Ok((tags, sev, q));
        }
        let q0 = adv_exec(ts, q);
        if is_tags == 1 {
            let q1 = match expect_exec(ts, q0, Kind::Colon, "':' after tags") {
                Ok(x) => x,
                Err(e) => {
                    return Err(e);
                },
            };
            let q2 = match expect_exec(ts, q1, Kind::LBracket, "'[' with the tag list") {
                Ok(x) => x,
                Err(e) => {
                    return Err(e);
                },
            };
            let (list, q3) = match tags_exec(ts, q2) {
                Ok(x) => x,
                Err(e) => {
                    return Err(e);
                },
            };
            let q4 = match expect_exec(ts, q3, Kind::RBracket, "']'") {
                Ok(x) => x,
                Err(e) => {
                    return Err(e);
                },
            };
            assert(q < q4);
            tags = list;
            q = q4;
        } else {
            let q1 = match expect_exec(ts, q0, Kind::Colon, "':' after severity") {
                Ok(x) => x,
                Err(e) => {
                    return Err(e);
                },
            };
            let level = match &ts[q1].tok {
                Tok::Ident(level) => severity_of_exec(level),
                _ => None,
            };
            match level {
                Some(s) => {
                    let q2 = adv_exec(ts, q1);
                    assert(q < q2);
                    sev = s;
                    q = q2;
                },
                None => {
                    return Err(expected_exec(ts, q1, "severity error, warning or info"));
                },
            }
        }
    }
}

/// A function's parameters, after the `(`.
fn params_exec(ts: &Vec<Token>, p: usize) -> (r: Result<(Vec<String>, usize), PError>)
    requires
        wf(ts),
        p < ts.len(),
    ensures
        agrees(r, params_loop(tv(ts), p as int, seq![]), |v: Vec<String>| strings_view(v@)),
        moved(r, p, ts.len(), 0),
{
    let mut acc: Vec<String> = Vec::new();
    let mut q = p;
    assert(strings_view(acc@) =~= Seq::<Seq<char>>::empty());
    loop
        invariant
            wf(ts),
            p <= q < ts.len(),
            params_loop(tv(ts), p as int, seq![]) == params_loop(tv(ts), q as int, strings_view(acc@)),
        decreases ts.len() - q,
    {
        let q1 = skip_nl_exec(ts, q);
        match &ts[q1].tok {
            Tok::RParen => {
                return Ok((acc, q1));
            },
            Tok::Ident(x) => {
                let q2 = adv_exec(ts, q1);
                let q3 = if matches!(ts[q2].tok, Tok::Comma) {
                    adv_exec(ts, q2)
                } else {
                    q2
                };
                let ghost before = strings_view(acc@);
                acc.push(x.clone());
                assert(strings_view(acc@) =~= before.push(x@));
                assert(q < q3);
                q = q3;
            },
            other => {
                return Err(found_exec(ts, q1, "expected parameter, found ", other));
            },
        }
    }
}

/// The parameters of a block, after the opening `|`.
fn block_params_exec(ts: &Vec<Token>, p: usize) -> (r: Result<(Vec<String>, usize), PError>)
    requires
        wf(ts),
        p < ts.len(),
    ensures
        agrees(r, block_params(tv(ts), p as int, seq![]), |v: Vec<String>| strings_view(v@)),
        moved(r, p, ts.len(), 0),
{
    let mut acc: Vec<String> = Vec::new();
    let mut q = p;
    assert(strings_view(acc@) =~= Seq::<Seq<char>>::empty());
    loop
        invariant
            wf(ts),
            p <= q < ts.len(),
            block_params(tv(ts), p as int, seq![]) == block_params(tv(ts), q as int, strings_view(acc@)),
        decreases ts.len() - q,
    {
        let q1 = adv_exec(ts, q);
        match &ts[q].tok {
            Tok::Ident(n) => {
                let q2 = adv_exec(ts, q1);
                let ghost before = strings_view(acc@);
                acc.push(n.clone());
                assert(strings_view(acc@) =~= before.push(n@));
                match &ts[q1].tok {
                    Tok::Comma => {
                        assert(q < q2);
                        q = q2;
                    },
                    Tok::Pipe => {
                        return Ok((acc, q2));
                    },
                    other => {
                        return Err(found_exec(ts, q2, "expected ',' or '|', found ", other));
                    },
                }
            },
            other => {
                return Err(found_exec(ts, q1, "expected block parameter, found ", other));
            },
        }
    }
}


/// A token other than `Eof` is not the last one.
proof fn lemma_not_last(ts: &Vec<Token>, p: int)
    requires
        wf(ts),
        0 <= p < ts.len(),
        !(tk(tv(ts), p) is Eof),
    ensures
        p < ts.len() - 1,
        adv(tv(ts), p) == p + 1,
{
}

fn stmt_exec(ts: &Vec<Token>, p: usize, b: usize) -> (r: Result<(Stmt, usize), PError>)
    requires
        wf(ts),
        p < ts.len(),
    ensures
        agrees(r, stmt(tv(ts), p as int, b as nat), |x: Stmt| x@),
        moved(r, p, ts.len(), 1),
    decreases b, 0nat, ts.len() - p, 48nat,
{
    match &ts[p].tok {
        Tok::Profile | Tok::Check | Tok::Import => stmt_named(ts, p, b),
        Tok::Function | Tok::Const => stmt_binding(ts, p, b),
        Tok::Rule => stmt_rule(ts, p, b),
        Tok::Assert | Tok::Require => stmt_assert(ts, p, b),
        Tok::Ident(_) => {
            let second = if p + 1 < ts.len() { p + 1 } else { ts.len() - 1 };
            if matches!(ts[second].tok, Tok::Eq) {
                stmt_assign(ts, p, b)
            } else {
                stmt_expr(ts, p, b)
            }
        },
        _ => stmt_expr(ts, p, b),
    }
}

/// `profile NAME { ... }`, `check NAME opts { ... }`, `import PATH`.
fn stmt_named(ts: &Vec<Token>, p: usize, b: usize) -> (r: Result<(Stmt, usize), PError>)
    requires
        wf(ts),
        p < ts.len(),
        tk(tv(ts), p as int) is Profile || tk(tv(ts), p as int) is Check || tk(tv(ts), p as int) is Import,
    ensures
        agrees(r, stmt(tv(ts), p as int, b as nat), |x: Stmt| x@),
        moved(r, p, ts.len(), 1),
    decreases b, 0nat, ts.len() - p, 47nat,
{
    proof {
        lemma_not_last(ts, p as int);
    }
    let p1 = adv_exec(ts, p);
    if matches!(ts[p].tok, Tok::Import) {
        return match string_literal_exec(ts, p1, "import path") {
            Ok((path, p2)) => Ok((Stmt::Import { path }, p2)),
            Err(e) => Err(e),
        };
    }
    let is_profile = matches!(ts[p].tok, Tok::Profile);
    let what = if is_profile { "profile name" } else { "check name" };
    let (name, p2) = match string_literal_exec(ts, p1, what) {
        Ok(x) => x,
        Err(e) => {
            return Err(e);
        },
    };
    if is_profile {
        match braced_body_exec(ts, p2, b) {
            Ok((body, p3)) => Ok((Stmt::Profile { name, body }, p3)),
            Err(e) => Err(e),
        }
    } else {
        let (tags, severity, p3) = match check_opts_exec(ts, p2) {
            Ok(x) => x,
            Err(e) => {
                return Err(e);
            },
        };
        match braced_body_exec(ts, p3, b) {
            Ok((body, p4)) => Ok((Stmt::Check { name, tags, severity, body }, p4)),
            Err(e) => Err(e),
        }
    }
}

/// `function NAME(params) { ... }` and `const NAME = expr`.
fn stmt_binding(ts: &Vec<Token>, p: usize, b: usize) -> (r: Result<(Stmt, usize), PError>)
    requires
        wf(ts),
        p < ts.len(),
        tk(tv(ts), p as int) is Function || tk(tv(ts), p as int) is Const,
    ensures
        agrees(r, stmt(tv(ts), p as int, b as nat), |x: Stmt| x@),
        moved(r, p, ts.len(), 1),
    decreases b, 0nat, ts.len() - p, 47nat,
{
    proof {
        lemma_not_last(ts, p as int);
    }
    let is_function = matches!(ts[p].tok, Tok::Function);
    let p1 = adv_exec(ts, p);
    let p2 = adv_exec(ts, p1);
    let name = match &ts[p1].tok {
        Tok::Ident(n) => n.clone(),
        other => {
            let prefix = if is_function { "expected function name, found " } else { "expected constant name, found " };
            return Err(found_exec(ts, p2, prefix, other));
        },
    };
    if is_function {
        let p3 = match expect_exec(ts, p2, Kind::LParen, "'(' with the parameters") {
            Ok(x) => x,
            Err(e) => {
                return Err(e);
            },
        };
        let (params, p4) = match params_exec(ts, p3) {
            Ok(x) => x,
            Err(e) => {
                return Err(e);
            },
        };
        let p5 = match expect_exec(ts, p4, Kind::RParen, "')'") {
            Ok(x) => x,
            Err(e) => {
                return Err(e);
            },
        };
        match braced_body_exec(ts, p5, b) {
            Ok((body, p6)) => Ok((Stmt::Function { name, params, body }, p6)),
            Err(e) => Err(e),
        }
    } else {
        let p3 = match expect_exec(ts, p2, Kind::Eq, "'='") {
            Ok(x) => x,
            Err(e) => {
                return Err(e);
            },
        };
        match expr_exec(ts, p3, b) {
            Ok((value, p4)) => Ok((Stmt::Const { name, value }, p4)),
            Err(e) => Err(e),
        }
    }
}

fn rule_body_message_exec() -> (r: Vec<char>)
    ensures
        r@ == rule_body_message(),
{
    chars_of(
        "expected '{' with the rule body — if the 'on' selection uses a block, wrap it in parentheses: rule \"x\" on (doc.pages.filter { ... }) { ... }",
    )
}

/// `rule NAME [on expr] { ... }`.
fn stmt_rule(ts: &Vec<Token>, p: usize, b: usize) -> (r: Result<(Stmt, usize), PError>)
    requires
        wf(ts),
        p < ts.len(),
        tk(tv(ts), p as int) is Rule,
    ensures
        agrees(r, stmt(tv(ts), p as int, b as nat), |x: Stmt| x@),
        moved(r, p, ts.len(), 1),
    decreases b, 0nat, ts.len() - p, 47nat,
{
    proof {
        lemma_not_last(ts, p as int);
    }
    let p1 = adv_exec(ts, p);
    let (name, p2) = match string_literal_exec(ts, p1, "rule name") {
        Ok(x) => x,
        Err(e) => {
            return Err(e);
        },
    };
    let (pages, p3) = if matches!(ts[p2].tok, Tok::On) {
        let q = adv_exec(ts, p2);
        match expr_exec(ts, q, b) {
            Ok((e, q2)) => (Some(e), q2),
            Err(e) => {
                return Err(e);
            },
        }
    } else {
        (None, p2)
    };
    let p4 = skip_nl_exec(ts, p3);
    if pages.is_some() && !matches!(ts[p4].tok, Tok::LBrace) {
        let m = rule_body_message_exec();
        return Err(err_at_exec(ts, p4, &m));
    }
    match braced_body_exec(ts, p4, b) {
        Ok((body, p5)) => Ok((Stmt::Rule { name, pages, body }, p5)),
        Err(e) => Err(e),
    }
}

/// `assert expr [, message]` and `require expr`.
fn stmt_assert(ts: &Vec<Token>, p: usize, b: usize) -> (r: Result<(Stmt, usize), PError>)
    requires
        wf(ts),
        p < ts.len(),
        tk(tv(ts), p as int) is Assert || tk(tv(ts), p as int) is Require,
    ensures
        agrees(r, stmt(tv(ts), p as int, b as nat), |x: Stmt| x@),
        moved(r, p, ts.len(), 1),
    decreases b, 0nat, ts.len() - p, 47nat,
{
    proof {
        lemma_not_last(ts, p as int);
    }
    let is_require = matches!(ts[p].tok, Tok::Require);
    let line = ts[p].line;
    let p1 = adv_exec(ts, p);
    let (cond, p2) = match expr_exec(ts, p1, b) {
        Ok(x) => x,
        Err(e) => {
            return Err(e);
        },
    };
    let source = cond.to_source();
    if !is_require && matches!(ts[p2].tok, Tok::Comma) {
        let p3 = skip_nl_exec(ts, adv_exec(ts, p2));
        match expr_exec(ts, p3, b) {
            Ok((m, p4)) => Ok((Stmt::Assert { cond, message: Some(m), source, line }, p4)),
            Err(e) => Err(e),
        }
    } else {
        Ok((Stmt::Assert { cond, message: None, source, line }, p2))
    }
}

/// `NAME = expr`.
fn stmt_assign(ts: &Vec<Token>, p: usize, b: usize) -> (r: Result<(Stmt, usize), PError>)
    requires
        wf(ts),
        p < ts.len(),
        tk(tv(ts), p as int) is Ident,
        tk2(tv(ts), p as int) is Eq,
    ensures
        agrees(r, stmt(tv(ts), p as int, b as nat), |x: Stmt| x@),
        moved(r, p, ts.len(), 1),
    decreases b, 0nat, ts.len() - p, 47nat,
{
    proof {
        lemma_not_last(ts, p as int);
        lemma_not_last(ts, p + 1);
    }
    let name = match &ts[p].tok {
        Tok::Ident(n) => n.clone(),
        _ => String::new(),
    };
    let p1 = adv_exec(ts, p);
    let p2 = adv_exec(ts, p1);
    match expr_exec(ts, p2, b) {
        Ok((value, p3)) => Ok((Stmt::Assign { name, value }, p3)),
        Err(e) => Err(e),
    }
}

/// An expression used as a statement.
fn stmt_expr(ts: &Vec<Token>, p: usize, b: usize) -> (r: Result<(Stmt, usize), PError>)
    requires
        wf(ts),
        p < ts.len(),
        !(tk(tv(ts), p as int) is Profile || tk(tv(ts), p as int) is Check || tk(tv(ts), p as int) is Import
            || tk(tv(ts), p as int) is Function || tk(tv(ts), p as int) is Const
            || tk(tv(ts), p as int) is Rule || tk(tv(ts), p as int) is Assert
            || tk(tv(ts), p as int) is Require),
        tk(tv(ts), p as int) is Ident ==> !(tk2(tv(ts), p as int) is Eq),
    ensures
        agrees(r, stmt(tv(ts), p as int, b as nat), |x: Stmt| x@),
        moved(r, p, ts.len(), 1),
    decreases b, 0nat, ts.len() - p, 47nat,
{
    match expr_exec(ts, p, b) {
        Ok((e, p2)) => Ok((Stmt::Expr(e), p2)),
        Err(e) => Err(e),
    }
}

/// An expression.
fn expr_exec(ts: &Vec<Token>, p: usize, b: usize) -> (r: Result<(Expr, usize), PError>)
    requires
        wf(ts),
        p < ts.len(),
    ensures
        agrees(r, expr(tv(ts), p as int, b as nat), |x: Expr| x@),
        moved(r, p, ts.len(), 1),
    decreases b, 0nat, ts.len() - p, 41nat,
{
    bin_exec(ts, p, 0, b)
}

fn bin_op_exec(level: usize, t: &Tok) -> (r: Option<BinOp>)
    ensures
        r == bin_op(level as nat, t@),
{
    if level == 0 {
        if matches!(t, Tok::OrOr) { Some(BinOp::Or) } else { None }
    } else if level == 1 {
        if matches!(t, Tok::AndAnd) { Some(BinOp::And) } else { None }
    } else if level == 2 {
        if matches!(t, Tok::EqEq) {
            Some(BinOp::Eq)
        } else if matches!(t, Tok::NotEq) {
            Some(BinOp::NotEq)
        } else {
            None
        }
    } else if level == 3 {
        if matches!(t, Tok::LtEq) {
            Some(BinOp::LtEq)
        } else if matches!(t, Tok::GtEq) {
            Some(BinOp::GtEq)
        } else if matches!(t, Tok::Lt) {
            Some(BinOp::Lt)
        } else if matches!(t, Tok::Gt) {
            Some(BinOp::Gt)
        } else {
            None
        }
    } else if level == 4 {
        if matches!(t, Tok::Plus) {
            Some(BinOp::Add)
        } else if matches!(t, Tok::Minus) {
            Some(BinOp::Sub)
        } else {
            None
        }
    } else {
        if matches!(t, Tok::Star) {
            Some(BinOp::Mul)
        } else if matches!(t, Tok::Slash) {
            Some(BinOp::Div)
        } else {
            None
        }
    }
}

/// Operands of level `level` and above joined by the operators of `level`.
fn bin_exec(ts: &Vec<Token>, p: usize, level: usize, b: usize) -> (r: Result<(Expr, usize), PError>)
    requires
        wf(ts),
        p < ts.len(),
        level <= 6,
    ensures
        agrees(r, bin(tv(ts), p as int, level as nat, b as nat), |x: Expr| x@),
        moved(r, p, ts.len(), 1),
    decreases b, 0nat, ts.len() - p, 40 - 2 * level,
{
    if level >= 6 {
        return unary_exec(ts, p, b);
    }
    let (mut left, mut q) = match bin_exec(ts, p, level + 1, b) {
        Ok(x) => x,
        Err(e) => {
            return Err(e);
        },
    };
    loop
        invariant
            wf(ts),
            level < 6,
            p < q < ts.len(),
            bin(tv(ts), p as int, level as nat, b as nat) == bin_loop(tv(ts), q as int, level as nat, left@, b as nat),
        decreases ts.len() - q,
    {
        match bin_op_exec(level, &ts[q].tok) {
            Some(op) => {
                proof {
                    lemma_not_last(ts, q as int);
                }
                let q1 = skip_nl_exec(ts, adv_exec(ts, q));
                let (right, q2) = match bin_exec(ts, q1, level + 1, b) {
                    Ok(x) => x,
                    Err(e) => {
                        return Err(e);
                    },
                };
                left = Expr::Binary { op, left: Box::new(left), right: Box::new(right) };
                q = q2;
            },
            None => {
                return Ok((left, q));
            },
        }
    }
}

/// `!x`, `-x`, or a postfix expression.
fn unary_exec(ts: &Vec<Token>, p: usize, b: usize) -> (r: Result<(Expr, usize), PError>)
    requires
        wf(ts),
        p < ts.len(),
    ensures
        agrees(r, unary(tv(ts), p as int, b as nat), |x: Expr| x@),
        moved(r, p, ts.len(), 1),
    decreases b, 0nat, ts.len() - p, 27nat,
{
    let is_not = matches!(ts[p].tok, Tok::Bang);
    if is_not || matches!(ts[p].tok, Tok::Minus) {
        proof {
            lemma_not_last(ts, p as int);
        }
        let p1 = adv_exec(ts, p);
        match unary_exec(ts, p1, b) {
            Ok((e, p2)) => {
                let op = if is_not { UnOp::Not } else { UnOp::Neg };
                Ok((Expr::Unary { op, expr: Box::new(e) }, p2))
            },
            Err(e) => Err(e),
        }
    } else {
        postfix_exec(ts, p, b)
    }
}

/// A primary expression followed by member accesses and method calls.
#[verifier::rlimit(60)]
fn postfix_exec(ts: &Vec<Token>, p: usize, b: usize) -> (r: Result<(Expr, usize), PError>)
    requires
        wf(ts),
        p < ts.len(),
    ensures
        agrees(r, postfix(tv(ts), p as int, b as nat), |x: Expr| x@),
        moved(r, p, ts.len(), 1),
    decreases b, 0nat, ts.len() - p, 26nat,
{
    let (mut e, mut q) = match primary_exec(ts, p, b) {
        Ok(x) => x,
        Err(x) => {
            return Err(x);
        },
    };
    loop
        invariant
            wf(ts),
            p < q < ts.len(),
            postfix(tv(ts), p as int, b as nat) == postfix_loop(tv(ts), q as int, e@, b as nat),
        decreases ts.len() - q,
    {
        if !matches!(ts[q].tok, Tok::Dot) {
            return Ok((e, q));
        }
        proof {
            lemma_not_last(ts, q as int);
        }
        let q1 = adv_exec(ts, q);
        let q2 = adv_exec(ts, q1);
        let name = match &ts[q1].tok {
            Tok::Ident(n) => n.clone(),
            other => {
                return Err(found_exec(ts, q2, "expected name after '.', found ", other));
            },
        };
        if matches!(ts[q2].tok, Tok::LParen) {
            let (args, q3) = match call_args_exec(ts, q2, b) {
                Ok(x) => x,
                Err(x) => {
                    return Err(x);
                },
            };
            let (block, q4) = match maybe_block_exec(ts, q3, b) {
                Ok(x) => x,
                Err(x) => {
                    return Err(x);
                },
            };
            e = Expr::Call { recv: Some(Box::new(e)), name, args, block };
            q = q4;
        } else if matches!(ts[q2].tok, Tok::LBrace) {
            let (block, q3) = match maybe_block_exec(ts, q2, b) {
                Ok(x) => x,
                Err(x) => {
                    return Err(x);
                },
            };
            let args: Vec<Arg> = Vec::new();
            assert(args_view(args@) =~= Seq::<SpecArg>::empty());
            e = Expr::Call { recv: Some(Box::new(e)), name, args, block };
            q = q3;
        } else {
            e = Expr::Member { recv: Box::new(e), name };
            q = q2;
        }
    }
}

fn tk2_exec(ts: &Vec<Token>, p: usize) -> (t: &Tok)
    requires
        p < ts.len(),
    ensures
        t@ == tk2(tv(ts), p as int),
{
    if p + 1 < ts.len() {
        &ts[p + 1].tok
    } else {
        &ts[ts.len() - 1].tok
    }
}

/// `( [name:] expr, ... )`.
fn call_args_exec(ts: &Vec<Token>, p: usize, b: usize) -> (r: Result<(Vec<Arg>, usize), PError>)
    requires
        wf(ts),
        p < ts.len(),
    ensures
        agrees(r, call_args(tv(ts), p as int, b as nat), |v: Vec<Arg>| args_view(v@)),
        moved(r, p, ts.len(), 1),
    decreases b, 0nat, ts.len() - p, 45nat,
{
    let p1 = match expect_exec(ts, p, Kind::LParen, "'('") {
        Ok(x) => x,
        Err(e) => {
            return Err(e);
        },
    };
    assert(p1 == p + 1);
    let mut acc: Vec<Arg> = Vec::new();
    let mut q = p1;
    assert(args_view(acc@) =~= Seq::<SpecArg>::empty());
    let mut end: usize = q;
    loop
        invariant_except_break
            args_loop(tv(ts), p1 as int, seq![], b as nat) == args_loop(tv(ts), q as int, args_view(acc@), b as nat),
        invariant
            wf(ts),
            p < p1 <= q < ts.len(),
            call_args(tv(ts), p as int, b as nat) == (match args_loop(tv(ts), p1 as int, seq![], b as nat) {
                Ok((args, p2)) => match expect(tv(ts), skip_nl(tv(ts), p2), SpecTok::RParen, "')'"@) {
                    Ok(p3) => Ok((args, p3)),
                    Err(e) => Err(e),
                },
                Err(e) => Err(e),
            }),
        ensures
            p1 <= end < ts.len(),
            args_loop(tv(ts), p1 as int, seq![], b as nat) == Ok::<(Seq<SpecArg>, int), PErr>((args_view(acc@), end as int)),
        decreases ts.len() - q,
    {
        let q1 = skip_nl_exec(ts, q);
        if matches!(ts[q1].tok, Tok::RParen) {
            end = q1;
            break;
        }
        let named = matches!(ts[q1].tok, Tok::Ident(_)) && matches!(tk2_exec(ts, q1), Tok::Colon);
        let name = if named {
            match &ts[q1].tok {
                Tok::Ident(n) => Some(n.clone()),
                _ => None,
            }
        } else {
            None
        };
        let q2 = if named {
            let a1 = adv_exec(ts, q1);
            let a2 = adv_exec(ts, a1);
            skip_nl_exec(ts, a2)
        } else {
            q1
        };
        let (value, q3) = match expr_exec(ts, q2, b) {
            Ok(x) => x,
            Err(e) => {
                return Err(e);
            },
        };
        let q4 = skip_nl_exec(ts, q3);
        let arg = Arg { name, value };
        proof {
            lemma_args_push(acc@, arg);
        }
        acc.push(arg);
        if matches!(ts[q4].tok, Tok::Comma) {
            proof {
                lemma_not_last(ts, q4 as int);
            }
            q = adv_exec(ts, q4);
        } else {
            end = q4;
            break;
        }
    }
    let p3 = skip_nl_exec(ts, end);
    match expect_exec(ts, p3, Kind::RParen, "')'") {
        Ok(p4) => Ok((acc, p4)),
        Err(e) => Err(e),
    }
}

/// A `{ |a, b| body }` block — the `|params|` part is optional.
fn maybe_block_exec(ts: &Vec<Token>, p: usize, b: usize) -> (r: Result<(Option<Block>, usize), PError>)
    requires
        wf(ts),
        p < ts.len(),
    ensures
        agrees(r, maybe_block(tv(ts), p as int, b as nat), |x: Option<Block>| match x {
            Some(bl) => Some(block_view(bl)),
            None => None,
        }),
        moved(r, p, ts.len(), 0),
    decreases b, 0nat, ts.len() - p, 45nat,
{
    if !matches!(ts[p].tok, Tok::LBrace) {
        return Ok((None, p));
    }
    proof {
        lemma_not_last(ts, p as int);
    }
    let p1 = skip_nl_exec(ts, adv_exec(ts, p));
    let (params, p2) = if matches!(ts[p1].tok, Tok::Pipe) {
        match block_params_exec(ts, adv_exec(ts, p1)) {
            Ok(x) => x,
            Err(e) => {
                return Err(e);
            },
        }
    } else {
        let v: Vec<String> = Vec::new();
        assert(strings_view(v@) =~= Seq::<Seq<char>>::empty());
        (v, p1)
    };
    let (body, p3) = match stmts_exec(ts, p2, End::RBrace, b) {
        Ok(x) => x,
        Err(e) => {
            return Err(e);
        },
    };
    match expect_exec(ts, p3, Kind::RBrace, "'}'") {
        Ok(p4) => Ok((Some(Block { params, body }), p4)),
        Err(e) => Err(e),
    }
}


/// A primary expression.
fn primary_exec(ts: &Vec<Token>, p: usize, b: usize) -> (r: Result<(Expr, usize), PError>)
    requires
        wf(ts),
        p < ts.len(),
    ensures
        agrees(r, primary(tv(ts), p as int, b as nat), |x: Expr| x@),
        moved(r, p, ts.len(), 1),
    decreases b, 0nat, ts.len() - p, 24nat,
{
    let p1 = adv_exec(ts, p);
    match &ts[p].tok {
        Tok::Int(n) => {
            proof { lemma_not_last(ts, p as int); }
            Ok((Expr::Int(*n), p1))
        },
        Tok::Float(d) => {
            proof { lemma_not_last(ts, p as int); }
            Ok((Expr::Float(Number { digits: d.clone(), unit: None }), p1))
        },
        Tok::UnitNum(q, _) => {
            proof { lemma_not_last(ts, p as int); }
            Ok((Expr::Float(Number { digits: q.number.clone(), unit: Some(q.unit) }), p1))
        },
        Tok::True => {
            proof { lemma_not_last(ts, p as int); }
            Ok((Expr::Bool(true), p1))
        },
        Tok::False => {
            proof { lemma_not_last(ts, p as int); }
            Ok((Expr::Bool(false), p1))
        },
        Tok::Str(segs) => {
            proof { lemma_not_last(ts, p as int); }
            match parts_exec(segs, ts[p].line, ts[p].col, ts, p1, b) {
                Ok(parts) => Ok((Expr::Str(parts), p1)),
                Err(x) => Err(x),
            }
        },
        Tok::LBracket => primary_list(ts, p, b),
        Tok::LParen => primary_paren(ts, p, b),
        Tok::Ident(_) => primary_ident(ts, p, b),
        other => {
            let mut m: Vec<char> = Vec::new();
            push_str(&mut m, "unexpected expression: ");
            push_tok_text(&mut m, other);
            Err(PError::Syntax(ParseError { message: string_of(&m), line: ts[p].line, col: ts[p].col }))
        },
    }
}

/// `[ item, ... ]`.
fn primary_list(ts: &Vec<Token>, p: usize, b: usize) -> (r: Result<(Expr, usize), PError>)
    requires
        wf(ts),
        p < ts.len(),
        tk(tv(ts), p as int) is LBracket,
    ensures
        agrees(r, primary(tv(ts), p as int, b as nat), |x: Expr| x@),
        moved(r, p, ts.len(), 1),
    decreases b, 0nat, ts.len() - p, 23nat,
{
    proof {
        lemma_not_last(ts, p as int);
    }
    let p1 = adv_exec(ts, p);
    let (items, p2) = match list_items_exec(ts, p1, b) {
        Ok(x) => x,
        Err(e) => {
            return Err(e);
        },
    };
    match expect_exec(ts, p2, Kind::RBracket, "']'") {
        Ok(p3) => Ok((Expr::List(items), p3)),
        Err(x) => Err(x),
    }
}

/// The items of a list literal, after the `[`.
#[verifier::spinoff_prover]
fn list_items_exec(ts: &Vec<Token>, p1: usize, b: usize) -> (r: Result<(Vec<Expr>, usize), PError>)
    requires
        wf(ts),
        p1 < ts.len(),
    ensures
        agrees(r, list_loop(tv(ts), p1 as int, seq![], b as nat), |v: Vec<Expr>| exprs_view(v@)),
        moved(r, p1, ts.len(), 0),
    decreases b, 0nat, ts.len() - p1, 44nat,
{
    let mut acc: Vec<Expr> = Vec::new();
    let mut q = p1;
    assert(exprs_view(acc@) =~= Seq::<SpecExpr>::empty());
    loop
        invariant
            wf(ts),
            p1 <= q < ts.len(),
            list_loop(tv(ts), p1 as int, seq![], b as nat) == list_loop(tv(ts), q as int, exprs_view(acc@), b as nat),
        decreases ts.len() - q,
    {
        let ghost prev = exprs_view(acc@);
        let q1 = skip_nl_exec(ts, q);
        if matches!(ts[q1].tok, Tok::RBracket) {
            return Ok((acc, q1));
        }
        let (item, q2) = match expr_exec(ts, q1, b) {
            Ok(x) => x,
            Err(e) => {
                return Err(e);
            },
        };
        let q3 = skip_nl_exec(ts, q2);
        proof {
            lemma_exprs_push(acc@, item);
        }
        acc.push(item);
        if matches!(ts[q3].tok, Tok::Comma) {
            proof {
                lemma_not_last(ts, q3 as int);
            }
            q = adv_exec(ts, q3);
        } else {
            return Ok((acc, q3));
        }
    }
}

/// `( expr )`.
fn primary_paren(ts: &Vec<Token>, p: usize, b: usize) -> (r: Result<(Expr, usize), PError>)
    requires
        wf(ts),
        p < ts.len(),
        tk(tv(ts), p as int) is LParen,
    ensures
        agrees(r, primary(tv(ts), p as int, b as nat), |x: Expr| x@),
        moved(r, p, ts.len(), 1),
    decreases b, 0nat, ts.len() - p, 23nat,
{
    proof {
        lemma_not_last(ts, p as int);
    }
    let p1 = adv_exec(ts, p);
    let p2 = skip_nl_exec(ts, p1);
    let (e, p3) = match expr_exec(ts, p2, b) {
        Ok(x) => x,
        Err(x) => {
            return Err(x);
        },
    };
    match expect_exec(ts, skip_nl_exec(ts, p3), Kind::RParen, "')'") {
        Ok(p4) => Ok((e, p4)),
        Err(x) => Err(x),
    }
}

/// A name: a namespace call, a call, or a variable.
fn primary_ident(ts: &Vec<Token>, p: usize, b: usize) -> (r: Result<(Expr, usize), PError>)
    requires
        wf(ts),
        p < ts.len(),
        tk(tv(ts), p as int) is Ident,
    ensures
        agrees(r, primary(tv(ts), p as int, b as nat), |x: Expr| x@),
        moved(r, p, ts.len(), 1),
    decreases b, 0nat, ts.len() - p, 23nat,
{
    proof {
        lemma_not_last(ts, p as int);
    }
    let name = match &ts[p].tok {
        Tok::Ident(n) => n.clone(),
        _ => String::new(),
    };
    let p1 = adv_exec(ts, p);
    if matches!(ts[p1].tok, Tok::ColonColon) {
        proof {
            lemma_not_last(ts, p1 as int);
        }
        let p2 = adv_exec(ts, p1);
        let p3 = adv_exec(ts, p2);
        let func = match &ts[p2].tok {
            Tok::Ident(f) => f,
            other => {
                return Err(found_exec(ts, p3, "expected function name after '::', found ", other));
            },
        };
        let mut full: Vec<char> = Vec::new();
        push_str(&mut full, name.as_str());
        push_str(&mut full, "::");
        push_str(&mut full, func.as_str());
        let full = string_of(&full);
        if matches!(ts[p3].tok, Tok::LParen) {
            let (args, p4) = match call_args_exec(ts, p3, b) {
                Ok(x) => x,
                Err(x) => {
                    return Err(x);
                },
            };
            match maybe_block_exec(ts, p4, b) {
                Ok((block, p5)) => Ok((Expr::Call { recv: None, name: full, args, block }, p5)),
                Err(x) => Err(x),
            }
        } else {
            let args: Vec<Arg> = Vec::new();
            assert(args_view(args@) =~= Seq::<SpecArg>::empty());
            Ok((Expr::Call { recv: None, name: full, args, block: None }, p3))
        }
    } else if matches!(ts[p1].tok, Tok::LParen) {
        let (args, p2) = match call_args_exec(ts, p1, b) {
            Ok(x) => x,
            Err(x) => {
                return Err(x);
            },
        };
        match maybe_block_exec(ts, p2, b) {
            Ok((block, p3)) => Ok((Expr::Call { recv: None, name, args, block }, p3)),
            Err(x) => Err(x),
        }
    } else {
        Ok((Expr::Ident(name), p1))
    }
}

/// `parts` followed by whatever `rest` holds.
pub open spec fn prepend_parts(parts: Seq<SpecStrPart>, rest: Result<Seq<SpecStrPart>, PErr>) -> Result<Seq<SpecStrPart>, PErr> {
    match rest {
        Ok(r) => Ok(parts + r),
        Err(e) => Err(e),
    }
}

/// The pieces of a string literal, interpolations parsed.
fn parts_exec(segs: &Vec<StrSeg>, line: usize, col: usize, ts: &Vec<Token>, p1: usize, b: usize) -> (r: Result<Vec<StrPart>, PError>)
    requires
        wf(ts),
        p1 < ts.len(),
    ensures
        match parts_from(segs_view(segs@), 0, line as nat, col as nat, tv(ts), p1 as int, b as nat) {
            Ok(parts) => r matches Ok(v) && parts_view(v@) == parts,
            Err(e) => r matches Err(x) && x@ == e,
        },
    decreases b, 0nat, ts.len() - p1, segs.len(),
{
    let ghost sv = segs_view(segs@);
    let mut acc: Vec<StrPart> = Vec::new();
    let mut i: usize = 0;
    assert(parts_view(acc@) =~= Seq::<SpecStrPart>::empty());
    assert(prepend_parts(seq![], parts_from(sv, 0, line as nat, col as nat, tv(ts), p1 as int, b as nat))
        == parts_from(sv, 0, line as nat, col as nat, tv(ts), p1 as int, b as nat)) by {
        match parts_from(sv, 0, line as nat, col as nat, tv(ts), p1 as int, b as nat) {
            Ok(r) => {
                assert(Seq::<SpecStrPart>::empty() + r =~= r);
            },
            Err(_) => {},
        }
    }
    while i < segs.len()
        invariant
            sv == segs_view(segs@),
            i <= segs.len(),
            parts_from(sv, 0, line as nat, col as nat, tv(ts), p1 as int, b as nat) == prepend_parts(
                parts_view(acc@),
                parts_from(sv, i as int, line as nat, col as nat, tv(ts), p1 as int, b as nat),
            ),
        decreases segs.len() - i,
    {
        let ghost before = parts_view(acc@);
        let ghost rest = parts_from(sv, i + 1, line as nat, col as nat, tv(ts), p1 as int, b as nat);
        let part = match &segs[i] {
            StrSeg::Lit(l) => StrPart::Lit(l.clone()),
            StrSeg::Interp(src) => {
                let n = chars_of(src.as_str()).len();
                if n < b {
                    match expr_source_exec(src, line, col, n) {
                        Ok(e) => StrPart::Interp(e),
                        Err(x) => {
                            return Err(x);
                        },
                    }
                } else {
                    return Err(PError::Syntax(ParseError { message: String::new(), line: 0, col: 0 }));
                }
            },
        };
        proof {
            lemma_parts_push(acc@, part);
            match rest {
                Ok(r) => {
                    assert(before.push(part_view(part)) + r =~= before + (seq![part_view(part)] + r));
                },
                Err(_) => {},
            }
        }
        acc.push(part);
        i = i + 1;
    }
    proof {
        match parts_from(sv, i as int, line as nat, col as nat, tv(ts), p1 as int, b as nat) {
            Ok(r) => {
                assert(parts_view(acc@) + r =~= parts_view(acc@));
            },
            Err(_) => {},
        }
    }
    Ok(acc)
}

/// An interpolation's source: one expression and nothing else.
fn expr_source_exec(src: &String, line: usize, col: usize, b: usize) -> (r: Result<Expr, PError>)
    ensures
        match expr_source(src@, line as nat, col as nat, b as nat) {
            Ok(e) => r matches Ok(x) && x@ == e,
            Err(e) => r matches Err(x) && x@ == e,
        },
    decreases b, 1nat, 0int, 0nat,
{
    match lex(src.as_str(), false) {
        LexResult::Tokens(v) => {
            proof {
                lemma_lex_ends_with_eof(src@, 0, 1, 1, false);
            }
            if v.len() == 0 {
                return Err(PError::Syntax(ParseError { message: String::new(), line: 0, col: 0 }));
            }
            let (e, p1) = match expr_exec(&v, 0, b) {
                Ok(x) => x,
                Err(x) => {
                    return Err(x);
                },
            };
            let p2 = skip_nl_exec(&v, p1);
            if matches!(v[p2].tok, Tok::Eof) {
                Ok(e)
            } else {
                let mut m: Vec<char> = Vec::new();
                push_str(&mut m, "unexpected token in interpolation: ");
                push_tok_text(&mut m, &v[p2].tok);
                Err(err_at_exec(&v, p2, &m))
            }
        },
        LexResult::Failed(e) => {
            let mut m: Vec<char> = Vec::new();
            push_str(&mut m, "in interpolation: ");
            push_str(&mut m, e.message.as_str());
            Err(PError::Syntax(ParseError { message: string_of(&m), line, col }))
        },
        LexResult::Overflow => Err(PError::Overflow),
    }
}

fn parse_impl(source: &str) -> (r: Result<Vec<Stmt>, PError>)
    ensures
        match spec_parse(source@) {
            Ok(prog) => r matches Ok(v) && stmts_view(v@) == prog,
            Err(e) => r matches Err(x) && x@ == e,
        },
{
    let b = chars_of(source).len();
    match lex(source, false) {
        LexResult::Tokens(v) => {
            proof {
                lemma_lex_ends_with_eof(source@, 0, 1, 1, false);
            }
            match stmts_exec(&v, 0, End::Eof, b) {
                Ok((prog, _)) => Ok(prog),
                Err(x) => Err(x),
            }
        },
        LexResult::Failed(e) => Err(PError::Syntax(ParseError { message: e.message, line: e.line, col: e.col })),
        LexResult::Overflow => Err(PError::Overflow),
    }
}

/// The program `source` holds, or the first syntax (or lexical) error. An
/// integer literal beyond `i64` has no value in the language and halts
/// scanning outright, so the source must have none, interpolations included (`parses_within_i64`
/// tells).
pub fn parse(source: &str) -> (r: Result<Vec<Stmt>, ParseError>)
    requires
        !(spec_parse(source@) matches Err(PErr::Overflow)),
    ensures
        match spec_parse(source@) {
            Ok(prog) => r matches Ok(v) && stmts_view(v@) == prog,
            Err(PErr::Syntax(e)) => r matches Err(x) && x@ == e,
            Err(PErr::Overflow) => false,
        },
{
    match parse_impl(source) {
        Ok(v) => Ok(v),
        Err(PError::Syntax(e)) => Err(e),
        Err(PError::Overflow) => Err(ParseError { message: String::new(), line: 0, col: 0 }),
    }
}

/// Whether parsing `source` meets no integer literal beyond `i64`.
pub fn parses_within_i64(source: &str) -> (r: bool)
    ensures
        r == !(spec_parse(source@) matches Err(PErr::Overflow)),
{
    match parse_impl(source) {
        Err(PError::Overflow) => false,
        _ => true,
    }
}


// ---------------------------------------------------------------------------
// Precedence.
// ---------------------------------------------------------------------------

/// Multiplication binds tighter than addition: the tokens of
/// `x + y * z` (or `x - y / z`, or any mix of an additive then a
/// multiplicative operator) parse as the additive operation whose right
/// operand is the multiplicative one, `x + (y * z)`, and the whole reading
/// stops at the end.
pub proof fn lemma_product_binds_tighter(ts: Seq<SpecToken>, x: i64, y: i64, z: i64, b: nat)
    requires
        ts.len() == 6,
        ts[0].tok == SpecTok::Int(x),
        ts[1].tok is Plus || ts[1].tok is Minus,
        ts[2].tok == SpecTok::Int(y),
        ts[3].tok is Star || ts[3].tok is Slash,
        ts[4].tok == SpecTok::Int(z),
        ts[5].tok is Eof,
    ensures
        expr(ts, 0, b) == Ok::<(SpecExpr, int), PErr>((
            SpecExpr::Binary {
                op: if ts[1].tok is Plus { BinOp::Add } else { BinOp::Sub },
                left: Box::new(SpecExpr::Int(x)),
                right: Box::new(SpecExpr::Binary {
                    op: if ts[3].tok is Star { BinOp::Mul } else { BinOp::Div },
                    left: Box::new(SpecExpr::Int(y)),
                    right: Box::new(SpecExpr::Int(z)),
                }),
            },
            5,
        )),
{
    let add = if ts[1].tok is Plus { BinOp::Add } else { BinOp::Sub };
    let mul = if ts[3].tok is Star { BinOp::Mul } else { BinOp::Div };
    let ex = SpecExpr::Int(x);
    let ey = SpecExpr::Int(y);
    let ez = SpecExpr::Int(z);
    let prod = SpecExpr::Binary { op: mul, left: Box::new(ey), right: Box::new(ez) };
    let sum = SpecExpr::Binary { op: add, left: Box::new(ex), right: Box::new(prod) };
    // The three operands.
    assert(primary(ts, 0, b) == Ok::<(SpecExpr, int), PErr>((ex, 1)));
    assert(postfix_loop(ts, 1, ex, b) == Ok::<(SpecExpr, int), PErr>((ex, 1)));
    assert(postfix(ts, 0, b) == Ok::<(SpecExpr, int), PErr>((ex, 1)));
    assert(unary(ts, 0, b) == Ok::<(SpecExpr, int), PErr>((ex, 1)));
    assert(bin(ts, 0, 6, b) == Ok::<(SpecExpr, int), PErr>((ex, 1)));
    assert(primary(ts, 2, b) == Ok::<(SpecExpr, int), PErr>((ey, 3)));
    assert(postfix_loop(ts, 3, ey, b) == Ok::<(SpecExpr, int), PErr>((ey, 3)));
    assert(postfix(ts, 2, b) == Ok::<(SpecExpr, int), PErr>((ey, 3)));
    assert(unary(ts, 2, b) == Ok::<(SpecExpr, int), PErr>((ey, 3)));
    assert(bin(ts, 2, 6, b) == Ok::<(SpecExpr, int), PErr>((ey, 3)));
    assert(primary(ts, 4, b) == Ok::<(SpecExpr, int), PErr>((ez, 5)));
    assert(postfix_loop(ts, 5, ez, b) == Ok::<(SpecExpr, int), PErr>((ez, 5)));
    assert(postfix(ts, 4, b) == Ok::<(SpecExpr, int), PErr>((ez, 5)));
    assert(unary(ts, 4, b) == Ok::<(SpecExpr, int), PErr>((ez, 5)));
    assert(bin(ts, 4, 6, b) == Ok::<(SpecExpr, int), PErr>((ez, 5)));
    // The product, at the multiplicative level.
    assert(bin_loop(ts, 5, 5, prod, b) == Ok::<(SpecExpr, int), PErr>((prod, 5)));
    assert(skip_nl(ts, adv(ts, 3)) == 4);
    assert(bin_loop(ts, 3, 5, ey, b) == Ok::<(SpecExpr, int), PErr>((prod, 5)));
    assert(bin(ts, 2, 5, b) == Ok::<(SpecExpr, int), PErr>((prod, 5)));
    // The first operand stops at the additive operator.
    assert(bin_loop(ts, 1, 5, ex, b) == Ok::<(SpecExpr, int), PErr>((ex, 1)));
    assert(bin(ts, 0, 5, b) == Ok::<(SpecExpr, int), PErr>((ex, 1)));
    // The sum, at the additive level.
    assert(bin_loop(ts, 5, 4, sum, b) == Ok::<(SpecExpr, int), PErr>((sum, 5)));
    assert(skip_nl(ts, adv(ts, 1)) == 2);
    assert(bin_loop(ts, 1, 4, ex, b) == Ok::<(SpecExpr, int), PErr>((sum, 5)));
    assert(bin(ts, 0, 4, b) == Ok::<(SpecExpr, int), PErr>((sum, 5)));
    // The looser levels find nothing more.
    assert(bin_loop(ts, 5, 3, sum, b) == Ok::<(SpecExpr, int), PErr>((sum, 5)));
    assert(bin(ts, 0, 3, b) == Ok::<(SpecExpr, int), PErr>((sum, 5)));
    assert(bin_loop(ts, 5, 2, sum, b) == Ok::<(SpecExpr, int), PErr>((sum, 5)));
    assert(bin(ts, 0, 2, b) == Ok::<(SpecExpr, int), PErr>((sum, 5)));
    assert(bin_loop(ts, 5, 1, sum, b) == Ok::<(SpecExpr, int), PErr>((sum, 5)));
    assert(bin(ts, 0, 1, b) == Ok::<(SpecExpr, int), PErr>((sum, 5)));
    assert(bin_loop(ts, 5, 0, sum, b) == Ok::<(SpecExpr, int), PErr>((sum, 5)));
    assert(bin(ts, 0, 0, b) == Ok::<(SpecExpr, int), PErr>((sum, 5)));
}


/// How tightly a binary operator binds, loosest first: `||`, then `&&`,
/// then `==` `!=`, then `<` `<=` `>` `>=`, then `+` `-`, then `*` `/`;
/// -1 for a token that is no binary operator.
pub open spec fn precedence(t: SpecTok) -> int {
    match t {
        SpecTok::OrOr => 0,
        SpecTok::AndAnd => 1,
        SpecTok::EqEq => 2,
        SpecTok::NotEq => 2,
        SpecTok::Lt => 3,
        SpecTok::LtEq => 3,
        SpecTok::Gt => 3,
        SpecTok::GtEq => 3,
        SpecTok::Plus => 4,
        SpecTok::Minus => 4,
        SpecTok::Star => 5,
        SpecTok::Slash => 5,
        _ => -1,
    }
}

/// The operation a binary operator token stands for.
pub open spec fn operation(t: SpecTok) -> BinOp {
    match t {
        SpecTok::OrOr => BinOp::Or,
        SpecTok::AndAnd => BinOp::And,
        SpecTok::EqEq => BinOp::Eq,
        SpecTok::NotEq => BinOp::NotEq,
        SpecTok::Lt => BinOp::Lt,
        SpecTok::LtEq => BinOp::LtEq,
        SpecTok::Gt => BinOp::Gt,
        SpecTok::GtEq => BinOp::GtEq,
        SpecTok::Plus => BinOp::Add,
        SpecTok::Minus => BinOp::Sub,
        SpecTok::Star => BinOp::Mul,
        _ => BinOp::Div,
    }
}

proof fn lemma_bin_op_table(l: nat, t: SpecTok)
    requires
        l <= 5,
    ensures
        bin_op(l, t) == (if precedence(t) == l { Some(operation(t)) } else { None::<BinOp> }),
{
}

/// An integer followed by a token that binds at no level from `level` on
/// reads, from `level` on, as just that integer.
proof fn lemma_lone_operand(ts: Seq<SpecToken>, p: int, level: nat, b: nat)
    requires
        0 <= p,
        p + 1 < ts.len(),
        tk(ts, p) is Int,
        level <= 6,
        tk(ts, p + 1) is Eof || 0 <= precedence(tk(ts, p + 1)) < level,
    ensures
        bin(ts, p, level, b) == Ok::<(SpecExpr, int), PErr>((SpecExpr::Int(tk(ts, p)->Int_0), p + 1)),
    decreases 6 - level,
{
    let e = SpecExpr::Int(tk(ts, p)->Int_0);
    if level >= 6 {
        assert(primary(ts, p, b) == Ok::<(SpecExpr, int), PErr>((e, p + 1)));
        assert(postfix_loop(ts, p + 1, e, b) == Ok::<(SpecExpr, int), PErr>((e, p + 1)));
        assert(postfix(ts, p, b) == Ok::<(SpecExpr, int), PErr>((e, p + 1)));
        assert(unary(ts, p, b) == Ok::<(SpecExpr, int), PErr>((e, p + 1)));
    } else {
        lemma_lone_operand(ts, p, level + 1, b);
        lemma_bin_op_table(level, tk(ts, p + 1));
        assert(bin_loop(ts, p + 1, level, e, b) == Ok::<(SpecExpr, int), PErr>((e, p + 1)));
    }
}

/// A reading that stops before a token binding at no level from `low` on
/// stays the same at every level down to `low`.
proof fn lemma_reading_stays(ts: Seq<SpecToken>, p: int, q: int, e: SpecExpr, level: nat, low: nat, b: nat)
    requires
        0 <= p <= q < ts.len(),
        low <= level <= 6,
        bin(ts, p, level, b) == Ok::<(SpecExpr, int), PErr>((e, q)),
        tk(ts, q) is Eof || 0 <= precedence(tk(ts, q)) < low,
    ensures
        bin(ts, p, low, b) == Ok::<(SpecExpr, int), PErr>((e, q)),
    decreases level - low,
{
    if level > low {
        let l1 = (level - 1) as nat;
        lemma_bin_op_table(l1, tk(ts, q));
        assert(bin_loop(ts, q, l1, e, b) == Ok::<(SpecExpr, int), PErr>((e, q)));
        assert(bin(ts, p, l1, b) == Ok::<(SpecExpr, int), PErr>((e, q)));
        lemma_reading_stays(ts, p, q, e, l1, low, b);
    }
}

/// Operators group by precedence, and operators of one level from the
/// left: the tokens `x A y B z` (integers `x`, `y`, `z`, binary operators
/// `A`, `B`) parse as `A(x, B(y, z))` when `B` binds tighter than `A`, and
/// as `B(A(x, y), z)` otherwise, the precedence going, loosest first, `||`,
/// `&&`, `== !=`, `< <= > >=`, `+ -`, `* /`.
pub proof fn lemma_operators_group_by_precedence(ts: Seq<SpecToken>, x: i64, y: i64, z: i64, b: nat)
    requires
        ts.len() == 6,
        ts[0].tok == SpecTok::Int(x),
        precedence(ts[1].tok) >= 0,
        ts[2].tok == SpecTok::Int(y),
        precedence(ts[3].tok) >= 0,
        ts[4].tok == SpecTok::Int(z),
        ts[5].tok is Eof,
    ensures
        expr(ts, 0, b) == Ok::<(SpecExpr, int), PErr>((
            if precedence(ts[1].tok) < precedence(ts[3].tok) {
                SpecExpr::Binary {
                    op: operation(ts[1].tok),
                    left: Box::new(SpecExpr::Int(x)),
                    right: Box::new(SpecExpr::Binary {
                        op: operation(ts[3].tok),
                        left: Box::new(SpecExpr::Int(y)),
                        right: Box::new(SpecExpr::Int(z)),
                    }),
                }
            } else {
                SpecExpr::Binary {
                    op: operation(ts[3].tok),
                    left: Box::new(SpecExpr::Binary {
                        op: operation(ts[1].tok),
                        left: Box::new(SpecExpr::Int(x)),
                        right: Box::new(SpecExpr::Int(y)),
                    }),
                    right: Box::new(SpecExpr::Int(z)),
                }
            },
            5,
        )),
{
    let ta = ts[1].tok;
    let tb = ts[3].tok;
    let a = precedence(ta) as nat;
    let bb = precedence(tb) as nat;
    let ex = SpecExpr::Int(x);
    let ey = SpecExpr::Int(y);
    let ez = SpecExpr::Int(z);
    assert(a <= 5 && bb <= 5);
    lemma_bin_op_table(a, ta);
    lemma_bin_op_table(bb, tb);
    lemma_lone_operand(ts, 4, bb + 1, b);
    if a < bb {
        let prod = SpecExpr::Binary { op: operation(tb), left: Box::new(ey), right: Box::new(ez) };
        let sum = SpecExpr::Binary { op: operation(ta), left: Box::new(ex), right: Box::new(prod) };
        // `y B z` at B's level, and unchanged down to just above A's.
        lemma_lone_operand(ts, 2, bb + 1, b);
        assert(skip_nl(ts, adv(ts, 3)) == 4);
        assert(bin_loop(ts, 5, bb, prod, b) == Ok::<(SpecExpr, int), PErr>((prod, 5)));
        assert(bin_loop(ts, 3, bb, ey, b) == Ok::<(SpecExpr, int), PErr>((prod, 5)));
        assert(bin(ts, 2, bb, b) == Ok::<(SpecExpr, int), PErr>((prod, 5)));
        lemma_reading_stays(ts, 2, 5, prod, bb, a + 1, b);
        // `x` alone above A's level, then `x A (y B z)`.
        lemma_lone_operand(ts, 0, a + 1, b);
        assert(skip_nl(ts, adv(ts, 1)) == 2);
        assert(bin_loop(ts, 5, a, sum, b) == Ok::<(SpecExpr, int), PErr>((sum, 5)));
        assert(bin_loop(ts, 1, a, ex, b) == Ok::<(SpecExpr, int), PErr>((sum, 5)));
        assert(bin(ts, 0, a, b) == Ok::<(SpecExpr, int), PErr>((sum, 5)));
        lemma_reading_stays(ts, 0, 5, sum, a, 0, b);
    } else {
        let first = SpecExpr::Binary { op: operation(ta), left: Box::new(ex), right: Box::new(ey) };
        let whole = SpecExpr::Binary { op: operation(tb), left: Box::new(first), right: Box::new(ez) };
        lemma_lone_operand(ts, 0, a + 1, b);
        lemma_lone_operand(ts, 2, a + 1, b);
        assert(skip_nl(ts, adv(ts, 1)) == 2);
        assert(skip_nl(ts, adv(ts, 3)) == 4);
        if a == bb {
            assert(bin_loop(ts, 5, a, whole, b) == Ok::<(SpecExpr, int), PErr>((whole, 5)));
            assert(bin_loop(ts, 3, a, first, b) == Ok::<(SpecExpr, int), PErr>((whole, 5)));
            assert(bin_loop(ts, 1, a, ex, b) == Ok::<(SpecExpr, int), PErr>((whole, 5)));
            assert(bin(ts, 0, a, b) == Ok::<(SpecExpr, int), PErr>((whole, 5)));
            lemma_reading_stays(ts, 0, 5, whole, a, 0, b);
        } else {
            lemma_bin_op_table(a, tb);
            assert(bin_loop(ts, 3, a, first, b) == Ok::<(SpecExpr, int), PErr>((first, 3)));
            assert(bin_loop(ts, 1, a, ex, b) == Ok::<(SpecExpr, int), PErr>((first, 3)));
            assert(bin(ts, 0, a, b) == Ok::<(SpecExpr, int), PErr>((first, 3)));
            lemma_reading_stays(ts, 0, 3, first, a, bb + 1, b);
            assert(bin_loop(ts, 5, bb, whole, b) == Ok::<(SpecExpr, int), PErr>((whole, 5)));
            assert(bin_loop(ts, 3, bb, first, b) == Ok::<(SpecExpr, int), PErr>((whole, 5)));
            assert(bin(ts, 0, bb, b) == Ok::<(SpecExpr, int), PErr>((whole, 5)));
            lemma_reading_stays(ts, 0, 5, whole, bb, 0, b);
        }
    }
}

} // verus!
