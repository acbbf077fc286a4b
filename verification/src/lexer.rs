//! Lexer for the PDFLang language (.pdfl).
//!
//! The token stream of a source is defined by `spec_tokenize`: tokens are
//! read left to right, each by the rule its first character selects
//! (`lex_step`), and every token records the line and column where it
//! starts. Numbers keep the digits as written: their value in points is a
//! floating-point matter left to the evaluator, while the formatter needs the
//! text anyway.

use vstd::prelude::*;
use crate::text::{
    alphabetic, alphanumeric, char_debug, char_is_alphabetic, char_is_alphanumeric, chars_eq_str,
    chars_of, debug_char, digit_value, is_digit, nat_text, push_all, push_str, push_usize,
    slice_chars, string_of, trim, trim_range,
};

verus! {

broadcast use vstd::string::group_string_axioms;

/// A piece of a string literal.
#[derive(Debug, Clone, PartialEq)]
pub enum StrSeg {
    /// Literal chunk of the string.
    Lit(String),
    /// Raw source of a `#{...}` interpolation (parsed later).
    Interp(String),
}

/// The mathematical value of a `StrSeg`.
pub enum SpecStrSeg {
    Lit(Seq<char>),
    Interp(Seq<char>),
}

impl View for StrSeg {
    type V = SpecStrSeg;

    open spec fn view(&self) -> SpecStrSeg {
        match self {
            StrSeg::Lit(s) => SpecStrSeg::Lit(s@),
            StrSeg::Interp(s) => SpecStrSeg::Interp(s@),
        }
    }
}

/// The views of a sequence of string pieces.
pub open spec fn segs_view(v: Seq<StrSeg>) -> Seq<SpecStrSeg> {
    v.map_values(|x: StrSeg| x@)
}

/// The unit written after a number.
#[derive(Debug, Clone, Copy, PartialEq, Eq, Structural)]
pub enum Unit {
    Pt,
    Mm,
    Cm,
    In,
    Percent,
}

/// A number followed by a unit (`3mm`, `2.5cm`, `300%`): the digits as
/// written and the unit.
#[derive(Debug, Clone, PartialEq)]
pub struct Quantity {
    pub number: String,
    pub unit: Unit,
}

/// The mathematical value of a `Quantity`.
pub struct SpecQuantity {
    pub number: Seq<char>,
    pub unit: Unit,
}

impl View for Quantity {
    type V = SpecQuantity;

    open spec fn view(&self) -> SpecQuantity {
        SpecQuantity { number: self.number@, unit: self.unit }
    }
}

#[derive(Debug, Clone, PartialEq)]
pub enum Tok {
    // Literals
    Int(i64),
    /// A decimal number (`1.5`): its digits as written.
    Float(String),
    /// Number with a unit (3mm, 300%), and the original text preserved for
    /// the formatter.
    UnitNum(Quantity, String),
    Str(Vec<StrSeg>),
    True,
    False,
    // Keywords
    Profile,
    Check,
    Const,
    Assert,
    Require,
    Function,
    Import,
    Rule,
    On,
    Ident(String),
    // Symbols
    LBrace,
    RBrace,
    LParen,
    RParen,
    LBracket,
    RBracket,
    Comma,
    Colon,
    ColonColon,
    Dot,
    Pipe,
    Eq,
    EqEq,
    NotEq,
    Lt,
    LtEq,
    Gt,
    GtEq,
    Plus,
    Minus,
    Star,
    Slash,
    Bang,
    AndAnd,
    OrOr,
    Newline,
    /// A `// ...` comment — only emitted by `tokenize_with_comments` (fmt).
    Comment(String),
    Eof,
}

/// The mathematical value of a `Tok`.
pub enum SpecTok {
    Int(i64),
    Float(Seq<char>),
    UnitNum(SpecQuantity, Seq<char>),
    Str(Seq<SpecStrSeg>),
    True,
    False,
    Profile,
    Check,
    Const,
    Assert,
    Require,
    Function,
    Import,
    Rule,
    On,
    Ident(Seq<char>),
    LBrace,
    RBrace,
    LParen,
    RParen,
    LBracket,
    RBracket,
    Comma,
    Colon,
    ColonColon,
    Dot,
    Pipe,
    Eq,
    EqEq,
    NotEq,
    Lt,
    LtEq,
    Gt,
    GtEq,
    Plus,
    Minus,
    Star,
    Slash,
    Bang,
    AndAnd,
    OrOr,
    Newline,
    Comment(Seq<char>),
    Eof,
}

impl View for Tok {
    type V = SpecTok;

    open spec fn view(&self) -> SpecTok {
        match self {
            Tok::Int(n) => SpecTok::Int(*n),
            Tok::Float(s) => SpecTok::Float(s@),
            Tok::UnitNum(q, raw) => SpecTok::UnitNum(q@, raw@),
            Tok::Str(segs) => SpecTok::Str(segs_view(segs@)),
            Tok::True => SpecTok::True,
            Tok::False => SpecTok::False,
            Tok::Profile => SpecTok::Profile,
            Tok::Check => SpecTok::Check,
            Tok::Const => SpecTok::Const,
            Tok::Assert => SpecTok::Assert,
            Tok::Require => SpecTok::Require,
            Tok::Function => SpecTok::Function,
            Tok::Import => SpecTok::Import,
            Tok::Rule => SpecTok::Rule,
            Tok::On => SpecTok::On,
            Tok::Ident(s) => SpecTok::Ident(s@),
            Tok::LBrace => SpecTok::LBrace,
            Tok::RBrace => SpecTok::RBrace,
            Tok::LParen => SpecTok::LParen,
            Tok::RParen => SpecTok::RParen,
            Tok::LBracket => SpecTok::LBracket,
            Tok::RBracket => SpecTok::RBracket,
            Tok::Comma => SpecTok::Comma,
            Tok::Colon => SpecTok::Colon,
            Tok::ColonColon => SpecTok::ColonColon,
            Tok::Dot => SpecTok::Dot,
            Tok::Pipe => SpecTok::Pipe,
            Tok::Eq => SpecTok::Eq,
            Tok::EqEq => SpecTok::EqEq,
            Tok::NotEq => SpecTok::NotEq,
            Tok::Lt => SpecTok::Lt,
            Tok::LtEq => SpecTok::LtEq,
            Tok::Gt => SpecTok::Gt,
            Tok::GtEq => SpecTok::GtEq,
            Tok::Plus => SpecTok::Plus,
            Tok::Minus => SpecTok::Minus,
            Tok::Star => SpecTok::Star,
            Tok::Slash => SpecTok::Slash,
            Tok::Bang => SpecTok::Bang,
            Tok::AndAnd => SpecTok::AndAnd,
            Tok::OrOr => SpecTok::OrOr,
            Tok::Newline => SpecTok::Newline,
            Tok::Comment(s) => SpecTok::Comment(s@),
            Tok::Eof => SpecTok::Eof,
        }
    }
}

/// A token and the line and column (both from 1) where it starts.
#[derive(Debug, Clone)]
pub struct Token {
    pub tok: Tok,
    pub line: usize,
    pub col: usize,
}

pub struct SpecToken {
    pub tok: SpecTok,
    pub line: nat,
    pub col: nat,
}

impl View for Token {
    type V = SpecToken;

    open spec fn view(&self) -> SpecToken {
        SpecToken { tok: self.tok@, line: self.line as nat, col: self.col as nat }
    }
}

/// The views of a sequence of tokens.
pub open spec fn toks_view(v: Seq<Token>) -> Seq<SpecToken> {
    v.map_values(|t: Token| t@)
}

#[derive(Debug)]
pub struct LexError {
    pub message: String,
    pub line: usize,
    pub col: usize,
}

pub struct SpecLexError {
    pub message: Seq<char>,
    pub line: nat,
    pub col: nat,
}

impl View for LexError {
    type V = SpecLexError;

    open spec fn view(&self) -> SpecLexError {
        SpecLexError { message: self.message@, line: self.line as nat, col: self.col as nat }
    }
}

impl LexError {
    /// The message as `Display` shows it:
    /// `lexical error at line L, column C: message`.
    pub fn to_string(&self) -> (r: String)
        ensures
            r@ == "lexical error at line "@ + nat_text(self.line as nat) + ", column "@ + nat_text(
                self.col as nat,
            ) + ": "@ + self.message@,
    {
        let mut v: Vec<char> = Vec::new();
        push_str(&mut v, "lexical error at line ");
        push_usize(&mut v, self.line);
        push_str(&mut v, ", column ");
        push_usize(&mut v, self.col);
        push_str(&mut v, ": ");
        push_str(&mut v, self.message.as_str());
        string_of(&v)
    }
}

// ---------------------------------------------------------------------------
// The token stream, as a mathematical function of the source.
// ---------------------------------------------------------------------------

/// What lexing a whole source gives: the tokens, a lexical error, or an
/// integer literal too large for `i64` (on which lexing cannot go on).
pub enum LexOutcome {
    Tokens(Seq<SpecToken>),
    Failed(SpecLexError),
    Overflow,
}

/// What reading one token gives: nothing (white space), a token, an error,
/// or an integer literal too large for `i64`. `next`, `line` and `col` are
/// where reading goes on.
pub enum Step {
    Skip(int, nat, nat),
    Emit(SpecTok, int, nat, nat),
    Fail(SpecLexError),
    Overflow,
}

/// The end of the run of ASCII digits that starts at `i`.
pub open spec fn digits_end(s: Seq<char>, i: int) -> int
    decreases s.len() - i,
{
    if 0 <= i < s.len() && is_digit(s[i]) {
        digits_end(s, i + 1)
    } else {
        i
    }
}

/// The end of the run of alphanumeric characters that starts at `i`.
pub open spec fn alnum_end(s: Seq<char>, i: int) -> int
    decreases s.len() - i,
{
    if 0 <= i < s.len() && alphanumeric(s[i]) {
        alnum_end(s, i + 1)
    } else {
        i
    }
}

/// The end of the run of identifier characters (alphanumeric or `_`) that
/// starts at `i`.
pub open spec fn ident_end(s: Seq<char>, i: int) -> int
    decreases s.len() - i,
{
    if 0 <= i < s.len() && (alphanumeric(s[i]) || s[i] == '_') {
        ident_end(s, i + 1)
    } else {
        i
    }
}

/// The position of the first line break at or after `i` (or the end).
pub open spec fn line_end(s: Seq<char>, i: int) -> int
    decreases s.len() - i,
{
    if 0 <= i < s.len() && s[i] != '\n' {
        line_end(s, i + 1)
    } else {
        i
    }
}

/// The value of a run of decimal digits.
pub open spec fn dec_value(s: Seq<char>) -> nat
    decreases s.len(),
{
    if s.len() == 0 {
        0
    } else {
        dec_value(s.drop_last()) * 10 + digit_value(s.last())
    }
}

/// The character a `\x` escape stands for, as the characters it adds:
/// `\n`, `\t`, `\"`, `\\` and `\#` are escapes; any other is kept as written.
pub open spec fn escape_chars(c: char) -> Seq<char> {
    if c == 'n' {
        seq!['\n']
    } else if c == 't' {
        seq!['\t']
    } else if c == '"' {
        seq!['"']
    } else if c == '\\' {
        seq!['\\']
    } else if c == '#' {
        seq!['#']
    } else {
        seq!['\\', c]
    }
}

pub open spec fn lex_error(message: Seq<char>, line: nat, col: nat) -> SpecLexError {
    SpecLexError { message, line, col }
}

/// Reading the source of an interpolation, after `#{`: up to the `}` that
/// closes it, counting nested braces. `depth` braces are open.
pub enum InterpScan {
    Done(Seq<char>, int, nat),
    Fail(SpecLexError),
}

pub open spec fn scan_interp(s: Seq<char>, j: int, line: nat, col: nat, depth: nat, src: Seq<char>) -> InterpScan
    decreases s.len() - j,
{
    if j < 0 || j >= s.len() || s[j] == '\n' {
        InterpScan::Fail(lex_error("unterminated #{...} interpolation"@, line, col))
    } else if s[j] == '{' {
        scan_interp(s, j + 1, line, col + 1, depth + 1, src.push('{'))
    } else if s[j] == '}' {
        if depth <= 1 {
            InterpScan::Done(src, j + 1, col + 1)
        } else {
            scan_interp(s, j + 1, line, col + 1, (depth - 1) as nat, src.push('}'))
        }
    } else {
        scan_interp(s, j + 1, line, col + 1, depth, src.push(s[j]))
    }
}

/// Reading the body of a string literal, after the opening quote: the pieces
/// read so far (`segs`, then the literal chunk `lit`), up to the closing
/// quote.
pub enum StrScan {
    Done(Seq<SpecStrSeg>, Seq<char>, int, nat),
    Fail(SpecLexError),
}

pub open spec fn scan_str(s: Seq<char>, j: int, line: nat, col: nat, segs: Seq<SpecStrSeg>, lit: Seq<char>) -> StrScan
    decreases s.len() - j,
{
    if j < 0 || j >= s.len() {
        StrScan::Fail(lex_error("unterminated string"@, line, col))
    } else if s[j] == '"' {
        StrScan::Done(segs, lit, j + 1, col + 1)
    } else if s[j] == '\n' {
        StrScan::Fail(lex_error("unterminated string (line break inside string)"@, line, col))
    } else if s[j] == '\\' {
        if j + 1 >= s.len() {
            StrScan::Fail(lex_error("unterminated string"@, line, col))
        } else {
            scan_str(s, j + 2, line, col + 2, segs, lit + escape_chars(s[j + 1]))
        }
    } else if s[j] == '#' && j + 1 < s.len() && s[j + 1] == '{' {
        let segs1 = if lit.len() > 0 { segs.push(SpecStrSeg::Lit(lit)) } else { segs };
        match scan_interp(s, j + 2, line, col + 2, 1, seq![]) {
            InterpScan::Done(src, j2, col2) => if j < j2 <= s.len() {
                scan_str(s, j2, line, col2, segs1.push(SpecStrSeg::Interp(src)), seq![])
            } else {
                StrScan::Fail(lex_error(seq![], line, col))
            },
            InterpScan::Fail(e) => StrScan::Fail(e),
        }
    } else {
        scan_str(s, j + 1, line, col + 1, segs, lit.push(s[j]))
    }
}

/// The pieces of a finished string: the last literal chunk is kept when it
/// is not empty, and an empty string is one empty chunk.
pub open spec fn finish_segs(segs: Seq<SpecStrSeg>, lit: Seq<char>) -> Seq<SpecStrSeg> {
    if lit.len() > 0 || segs.len() == 0 {
        segs.push(SpecStrSeg::Lit(lit))
    } else {
        segs
    }
}

/// A string literal starting at the quote at `i`.
pub open spec fn string_step(s: Seq<char>, i: int, line: nat, col: nat) -> Step {
    match scan_str(s, i + 1, line, col + 1, seq![], seq![]) {
        StrScan::Done(segs, lit, j, col2) => Step::Emit(SpecTok::Str(finish_segs(segs, lit)), j, line, col2),
        StrScan::Fail(e) => Step::Fail(e),
    }
}

/// The unit a unit name stands for.
pub open spec fn unit_of(name: Seq<char>) -> Option<Unit> {
    if name == "pt"@ {
        Some(Unit::Pt)
    } else if name == "mm"@ {
        Some(Unit::Mm)
    } else if name == "cm"@ {
        Some(Unit::Cm)
    } else if name == "in"@ {
        Some(Unit::In)
    } else {
        None
    }
}

/// A number starting at the digit at `i`: digits, an optional `.digits`
/// fraction, then either `%`, a unit name, or nothing.
pub open spec fn number_step(s: Seq<char>, i: int, line: nat, col: nat) -> Step {
    let e1 = digits_end(s, i);
    let is_float = e1 + 1 < s.len() && s[e1] == '.' && is_digit(s[e1 + 1]);
    let e = if is_float { digits_end(s, e1 + 1) } else { e1 };
    let text = s.subrange(i, e);
    let col2 = col + (e - i) as nat;
    if e < s.len() && s[e] == '%' {
        Step::Emit(
            SpecTok::UnitNum(SpecQuantity { number: text, unit: Unit::Percent }, text.push('%')),
            e + 1,
            line,
            col2 + 1,
        )
    } else if e < s.len() && alphabetic(s[e]) {
        let ue = alnum_end(s, e);
        let name = s.subrange(e, ue);
        let col3 = col2 + (ue - e) as nat;
        match unit_of(name) {
            Some(u) => Step::Emit(
                SpecTok::UnitNum(SpecQuantity { number: text, unit: u }, text + name),
                ue,
                line,
                col3,
            ),
            None => Step::Fail(
                lex_error(
                    "unknown unit: '"@ + name + "' (use pt, mm, cm, in or %)"@,
                    line,
                    col3,
                ),
            ),
        }
    } else if is_float {
        Step::Emit(SpecTok::Float(text), e, line, col2)
    } else if dec_value(text) <= i64::MAX {
        Step::Emit(SpecTok::Int(dec_value(text) as i64), e, line, col2)
    } else {
        Step::Overflow
    }
}

/// The keyword a word spells, or an identifier.
pub open spec fn word_tok(w: Seq<char>) -> SpecTok {
    if w == "profile"@ {
        SpecTok::Profile
    } else if w == "check"@ {
        SpecTok::Check
    } else if w == "const"@ {
        SpecTok::Const
    } else if w == "assert"@ {
        SpecTok::Assert
    } else if w == "require"@ {
        SpecTok::Require
    } else if w == "function"@ {
        SpecTok::Function
    } else if w == "import"@ {
        SpecTok::Import
    } else if w == "rule"@ {
        SpecTok::Rule
    } else if w == "on"@ {
        SpecTok::On
    } else if w == "true"@ {
        SpecTok::True
    } else if w == "false"@ {
        SpecTok::False
    } else {
        SpecTok::Ident(w)
    }
}

/// The operator of two characters starting at `i`, if there is one.
pub open spec fn two_char_op(s: Seq<char>, i: int) -> Option<SpecTok> {
    if i + 1 >= s.len() {
        None
    } else {
        let (a, b) = (s[i], s[i + 1]);
        if a == '=' && b == '=' {
            Some(SpecTok::EqEq)
        } else if a == '!' && b == '=' {
            Some(SpecTok::NotEq)
        } else if a == '<' && b == '=' {
            Some(SpecTok::LtEq)
        } else if a == '>' && b == '=' {
            Some(SpecTok::GtEq)
        } else if a == '&' && b == '&' {
            Some(SpecTok::AndAnd)
        } else if a == '|' && b == '|' {
            Some(SpecTok::OrOr)
        } else if a == ':' && b == ':' {
            Some(SpecTok::ColonColon)
        } else {
            None
        }
    }
}

/// The symbol a single character is, if it is one.
pub open spec fn one_char_op(c: char) -> Option<SpecTok> {
    if c == '{' {
        Some(SpecTok::LBrace)
    } else if c == '}' {
        Some(SpecTok::RBrace)
    } else if c == '(' {
        Some(SpecTok::LParen)
    } else if c == ')' {
        Some(SpecTok::RParen)
    } else if c == '[' {
        Some(SpecTok::LBracket)
    } else if c == ']' {
        Some(SpecTok::RBracket)
    } else if c == ',' {
        Some(SpecTok::Comma)
    } else if c == ':' {
        Some(SpecTok::Colon)
    } else if c == '.' {
        Some(SpecTok::Dot)
    } else if c == '|' {
        Some(SpecTok::Pipe)
    } else if c == '=' {
        Some(SpecTok::Eq)
    } else if c == '<' {
        Some(SpecTok::Lt)
    } else if c == '>' {
        Some(SpecTok::Gt)
    } else if c == '+' {
        Some(SpecTok::Plus)
    } else if c == '-' {
        Some(SpecTok::Minus)
    } else if c == '*' {
        Some(SpecTok::Star)
    } else if c == '/' {
        Some(SpecTok::Slash)
    } else if c == '!' {
        Some(SpecTok::Bang)
    } else {
        None
    }
}

/// An operator or punctuation at `i`: two characters when they form an
/// operator, else one.
pub open spec fn symbol_step(s: Seq<char>, i: int, line: nat, col: nat) -> Step {
    match two_char_op(s, i) {
        Some(t) => Step::Emit(t, i + 2, line, col + 2),
        None => match one_char_op(s[i]) {
            Some(t) => Step::Emit(t, i + 1, line, col + 1),
            None => Step::Fail(lex_error("unexpected character: "@ + char_debug(s[i]), line, col)),
        },
    }
}

/// Reading at `i` (a position inside the source), at `line` and `col`.
pub open spec fn lex_step(s: Seq<char>, i: int, line: nat, col: nat, keep: bool) -> Step {
    let c = s[i];
    if c == ' ' || c == '\t' || c == '\r' {
        Step::Skip(i + 1, line, col + 1)
    } else if c == '\n' {
        Step::Emit(SpecTok::Newline, i + 1, line + 1, 1)
    } else if c == '/' && i + 1 < s.len() && s[i + 1] == '/' {
        let e = line_end(s, i);
        if keep {
            Step::Emit(SpecTok::Comment(trim(s.subrange(i + 2, e))), e, line, col + (e - i) as nat)
        } else {
            Step::Skip(e, line, col + (e - i) as nat)
        }
    } else if c == '"' {
        string_step(s, i, line, col)
    } else if is_digit(c) {
        number_step(s, i, line, col)
    } else if alphabetic(c) || c == '_' {
        let e = ident_end(s, i);
        Step::Emit(word_tok(s.subrange(i, e)), e, line, col + (e - i) as nat)
    } else {
        symbol_step(s, i, line, col)
    }
}

/// `tokens` followed by whatever `rest` holds.
pub open spec fn prepend_all(tokens: Seq<SpecToken>, rest: LexOutcome) -> LexOutcome {
    match rest {
        LexOutcome::Tokens(r) => LexOutcome::Tokens(tokens + r),
        other => other,
    }
}

/// The tokens of `s` from position `i` on, ending with `Eof`.
pub open spec fn lex_from(s: Seq<char>, i: int, line: nat, col: nat, keep: bool) -> LexOutcome
    decreases s.len() - i,
{
    if i < 0 || i >= s.len() {
        LexOutcome::Tokens(seq![SpecToken { tok: SpecTok::Eof, line, col }])
    } else {
        match lex_step(s, i, line, col, keep) {
            Step::Skip(j, l2, c2) => if i < j <= s.len() {
                lex_from(s, j, l2, c2, keep)
            } else {
                LexOutcome::Overflow
            },
            Step::Emit(t, j, l2, c2) => if i < j <= s.len() {
                prepend_all(seq![SpecToken { tok: t, line, col }], lex_from(s, j, l2, c2, keep))
            } else {
                LexOutcome::Overflow
            },
            Step::Fail(e) => LexOutcome::Failed(e),
            Step::Overflow => LexOutcome::Overflow,
        }
    }
}

/// The tokens of a whole source: from line 1, column 1. Comments become
/// tokens only when `keep` is set.
pub open spec fn spec_tokenize(s: Seq<char>, keep: bool) -> LexOutcome {
    lex_from(s, 0, 1, 1, keep)
}


// ---------------------------------------------------------------------------
// The lexer itself.
// ---------------------------------------------------------------------------

/// What lexing gives, as executable values.
pub enum LexResult {
    Tokens(Vec<Token>),
    Failed(LexError),
    Overflow,
}

impl View for LexResult {
    type V = LexOutcome;

    open spec fn view(&self) -> LexOutcome {
        match self {
            LexResult::Tokens(v) => LexOutcome::Tokens(toks_view(v@)),
            LexResult::Failed(e) => LexOutcome::Failed(e@),
            LexResult::Overflow => LexOutcome::Overflow,
        }
    }
}

/// What reading one token gives, as executable values.
pub enum StepResult {
    Skip(usize, usize, usize),
    Emit(Tok, usize, usize, usize),
    Fail(LexError),
    Overflow,
}

impl View for StepResult {
    type V = Step;

    open spec fn view(&self) -> Step {
        match self {
            StepResult::Skip(j, l, c) => Step::Skip(*j as int, *l as nat, *c as nat),
            StepResult::Emit(t, j, l, c) => Step::Emit(t@, *j as int, *l as nat, *c as nat),
            StepResult::Fail(e) => Step::Fail(e@),
            StepResult::Overflow => Step::Overflow,
        }
    }
}

/// Reading goes on inside the source, with line and column no larger than
/// the number of characters read plus one.
pub open spec fn step_bounds(r: Step, i: int, len: int) -> bool {
    match r {
        Step::Skip(j, l, c) => i < j <= len && 1 <= l <= j + 1 && 1 <= c <= j + 1,
        Step::Emit(_, j, l, c) => i < j <= len && 1 <= l <= j + 1 && 1 <= c <= j + 1,
        _ => true,
    }
}

fn scan_digits(s: &Vec<char>, i: usize) -> (e: usize)
    requires
        i <= s.len(),
    ensures
        e as int == digits_end(s@, i as int),
        i <= e <= s.len(),
        (i < s.len() && is_digit(s@[i as int])) ==> i < e,
{
    let mut j = i;
    while j < s.len() && '0' <= s[j] && s[j] <= '9'
        invariant
            i <= j <= s.len(),
            digits_end(s@, j as int) == digits_end(s@, i as int),
        decreases s.len() - j,
    {
        j = j + 1;
    }
    j
}

fn scan_alnum(s: &Vec<char>, i: usize) -> (e: usize)
    requires
        i <= s.len(),
    ensures
        e as int == alnum_end(s@, i as int),
        i <= e <= s.len(),
{
    let mut j = i;
    while j < s.len() && char_is_alphanumeric(s[j])
        invariant
            i <= j <= s.len(),
            alnum_end(s@, j as int) == alnum_end(s@, i as int),
        decreases s.len() - j,
    {
        j = j + 1;
    }
    j
}

fn scan_ident(s: &Vec<char>, i: usize) -> (e: usize)
    requires
        i <= s.len(),
    ensures
        e as int == ident_end(s@, i as int),
        i <= e <= s.len(),
        (i < s.len() && (alphabetic(s@[i as int]) || s@[i as int] == '_')) ==> i < e,
{
    let mut j = i;
    while j < s.len() && (char_is_alphanumeric(s[j]) || s[j] == '_')
        invariant
            i <= j <= s.len(),
            ident_end(s@, j as int) == ident_end(s@, i as int),
        decreases s.len() - j,
    {
        j = j + 1;
    }
    j
}

fn scan_line(s: &Vec<char>, i: usize) -> (e: usize)
    requires
        i <= s.len(),
    ensures
        e as int == line_end(s@, i as int),
        i <= e <= s.len(),
        forall|k: int| i <= k < e ==> s@[k] != '\n',
        e == s.len() || s@[e as int] == '\n',
{
    let mut j = i;
    while j < s.len() && s[j] != '\n'
        invariant
            i <= j <= s.len(),
            line_end(s@, j as int) == line_end(s@, i as int),
            forall|k: int| i <= k < j ==> s@[k] != '\n',
        decreases s.len() - j,
    {
        j = j + 1;
    }
    j
}

/// A prefix of a run of digits is worth no more than the run.
proof fn lemma_dec_value_prefix(s: Seq<char>, k: int)
    requires
        0 <= k <= s.len(),
    ensures
        dec_value(s.take(k)) <= dec_value(s),
    decreases s.len(),
{
    if k < s.len() {
        lemma_dec_value_prefix(s.drop_last(), k);
        assert(s.drop_last().take(k) =~= s.take(k));
    } else {
        assert(s.take(k) =~= s);
    }
}

/// The value of a run of ASCII digits, when it fits in an `i64`.
fn int_value(text: &Vec<char>) -> (r: Option<i64>)
    requires
        forall|k: int| 0 <= k < text@.len() ==> is_digit(#[trigger] text@[k]),
    ensures
        match r {
            Some(v) => dec_value(text@) <= i64::MAX && v == dec_value(text@),
            None => dec_value(text@) > i64::MAX,
        },
{
    let mut v: i64 = 0;
    let mut k: usize = 0;
    assert(text@.take(0) =~= Seq::<char>::empty());
    while k < text.len()
        invariant
            k <= text.len(),
            forall|m: int| 0 <= m < text@.len() ==> is_digit(#[trigger] text@[m]),
            0 <= v,
            v == dec_value(text@.take(k as int)),
        decreases text.len() - k,
    {
        let c = text[k];
        let d: u32 = (c as u32) - ('0' as u32);
        let w: u128 = (v as u128) * 10 + (d as u128);
        assert(text@.take(k + 1).drop_last() =~= text@.take(k as int));
        assert(w == dec_value(text@.take(k + 1)));
        if w > 9223372036854775807u128 {
            proof {
                lemma_dec_value_prefix(text@, k + 1);
            }
            return None;
        }
        v = w as i64;
        k = k + 1;
    }
    assert(text@.take(text.len() as int) =~= text@);
    Some(v)
}

fn scan_interp_exec(s: &Vec<char>, j0: usize, line: usize, col0: usize) -> (r: Result<(Vec<char>, usize, usize), LexError>)
    requires
        j0 <= s.len() < usize::MAX / 4,
        col0 <= j0 + 1,
    ensures
        match scan_interp(s@, j0 as int, line as nat, col0 as nat, 1, seq![]) {
            InterpScan::Done(src, j2, c2) => r matches Ok((src_x, j_x, c_x)) && src_x@ == src
                && j_x == j2 && c_x == c2 && j0 < j2 <= s.len() && col0 <= c2 <= j2 + 1,
            InterpScan::Fail(e) => r matches Err(e_x) && e_x@ == e,
        },
{
    let mut j = j0;
    let mut col = col0;
    let mut depth: usize = 1;
    let mut src: Vec<char> = Vec::new();
    loop
        invariant
            j0 <= j <= s.len() < usize::MAX / 4,
            col0 <= col <= j + 1,
            1 <= depth <= j - j0 + 1,
            scan_interp(s@, j0 as int, line as nat, col0 as nat, 1, seq![]) == scan_interp(
                s@,
                j as int,
                line as nat,
                col as nat,
                depth as nat,
                src@,
            ),
        decreases s.len() - j,
    {
        if j >= s.len() || s[j] == '\n' {
            return Err(
                LexError { message: "unterminated #{...} interpolation".to_string(), line, col },
            );
        }
        let c = s[j];
        if c == '{' {
            depth = depth + 1;
            src.push('{');
        } else if c == '}' {
            if depth <= 1 {
                return Ok((src, j + 1, col + 1));
            }
            depth = depth - 1;
            src.push('}');
        } else {
            src.push(c);
        }
        j = j + 1;
        col = col + 1;
    }
}

fn scan_str_exec(s: &Vec<char>, j0: usize, line: usize, col0: usize) -> (r: Result<(Vec<StrSeg>, Vec<char>, usize, usize), LexError>)
    requires
        j0 <= s.len() < usize::MAX / 4,
        col0 <= j0 + 1,
    ensures
        match scan_str(s@, j0 as int, line as nat, col0 as nat, seq![], seq![]) {
            StrScan::Done(segs, lit, j2, c2) => r matches Ok((segs_x, lit_x, j_x, c_x))
                && segs_view(segs_x@) == segs && lit_x@ == lit && j_x == j2 && c_x == c2 && j0
                < j2 <= s.len() && col0 <= c2 <= j2 + 1,
            StrScan::Fail(e) => r matches Err(e_x) && e_x@ == e,
        },
{
    let mut j = j0;
    let mut col = col0;
    let mut segs: Vec<StrSeg> = Vec::new();
    let mut lit: Vec<char> = Vec::new();
    assert(segs_view(segs@) =~= Seq::<SpecStrSeg>::empty());
    loop
        invariant
            j0 <= j <= s.len() < usize::MAX / 4,
            col0 <= col <= j + 1,
            scan_str(s@, j0 as int, line as nat, col0 as nat, seq![], seq![]) == scan_str(
                s@,
                j as int,
                line as nat,
                col as nat,
                segs_view(segs@),
                lit@,
            ),
        decreases s.len() - j,
    {
        if j >= s.len() {
            return Err(LexError { message: "unterminated string".to_string(), line, col });
        }
        let c = s[j];
        if c == '"' {
            return Ok((segs, lit, j + 1, col + 1));
        } else if c == '\n' {
            return Err(
                LexError {
                    message: "unterminated string (line break inside string)".to_string(),
                    line,
                    col,
                },
            );
        } else if c == '\\' {
            if j + 1 >= s.len() {
                return Err(LexError { message: "unterminated string".to_string(), line, col });
            }
            let next = s[j + 1];
            let ghost old_lit = lit@;
            if next == 'n' {
                lit.push('\n');
            } else if next == 't' {
                lit.push('\t');
            } else if next == '"' {
                lit.push('"');
            } else if next == '\\' {
                lit.push('\\');
            } else if next == '#' {
                lit.push('#');
            } else {
                lit.push('\\');
                lit.push(next);
            }
            assert(lit@ =~= old_lit + escape_chars(next));
            j = j + 2;
            col = col + 2;
        } else if c == '#' && j + 1 < s.len() && s[j + 1] == '{' {
            let ghost segs1 = if lit@.len() > 0 {
                segs_view(segs@).push(SpecStrSeg::Lit(lit@))
            } else {
                segs_view(segs@)
            };
            if lit.len() > 0 {
                let chunk = string_of(&lit);
                segs.push(StrSeg::Lit(chunk));
                assert(segs_view(segs@) =~= segs1);
            }
            match scan_interp_exec(s, j + 2, line, col + 2) {
                Ok((src, j2, c2)) => {
                    let src_s = string_of(&src);
                    segs.push(StrSeg::Interp(src_s));
                    assert(segs_view(segs@) =~= segs1.push(SpecStrSeg::Interp(src@)));
                    lit = Vec::new();
                    j = j2;
                    col = c2;
                },
                Err(e) => {
                    return Err(e);
                },
            }
        } else {
            lit.push(c);
            j = j + 1;
            col = col + 1;
        }
    }
}

fn word_tok_exec(w: &Vec<char>) -> (t: Tok)
    ensures
        t@ == word_tok(w@),
{
    if chars_eq_str(w, "profile") {
        Tok::Profile
    } else if chars_eq_str(w, "check") {
        Tok::Check
    } else if chars_eq_str(w, "const") {
        Tok::Const
    } else if chars_eq_str(w, "assert") {
        Tok::Assert
    } else if chars_eq_str(w, "require") {
        Tok::Require
    } else if chars_eq_str(w, "function") {
        Tok::Function
    } else if chars_eq_str(w, "import") {
        Tok::Import
    } else if chars_eq_str(w, "rule") {
        Tok::Rule
    } else if chars_eq_str(w, "on") {
        Tok::On
    } else if chars_eq_str(w, "true") {
        Tok::True
    } else if chars_eq_str(w, "false") {
        Tok::False
    } else {
        Tok::Ident(string_of(w))
    }
}

fn unit_of_exec(name: &Vec<char>) -> (u: Option<Unit>)
    ensures
        u == unit_of(name@),
{
    if chars_eq_str(name, "pt") {
        Some(Unit::Pt)
    } else if chars_eq_str(name, "mm") {
        Some(Unit::Mm)
    } else if chars_eq_str(name, "cm") {
        Some(Unit::Cm)
    } else if chars_eq_str(name, "in") {
        Some(Unit::In)
    } else {
        None
    }
}

fn number_step_exec(s: &Vec<char>, i: usize, line: usize, col: usize) -> (r: StepResult)
    requires
        i < s.len() < usize::MAX / 4,
        is_digit(s@[i as int]),
        1 <= line <= i + 1,
        1 <= col <= i + 1,
    ensures
        r@ == number_step(s@, i as int, line as nat, col as nat),
        step_bounds(r@, i as int, s.len() as int),
{
    let e1 = scan_digits(s, i);
    let is_float = e1 + 1 < s.len() && s[e1] == '.' && '0' <= s[e1 + 1] && s[e1 + 1] <= '9';
    let e = if is_float {
        scan_digits(s, e1 + 1)
    } else {
        e1
    };
    let text = slice_chars(s, i, e);
    let col2 = col + (e - i);
    if e < s.len() && s[e] == '%' {
        let mut raw = text.clone();
        raw.push('%');
        let number = string_of(&text);
        let raw_s = string_of(&raw);
        return StepResult::Emit(
            Tok::UnitNum(Quantity { number, unit: Unit::Percent }, raw_s),
            e + 1,
            line,
            col2 + 1,
        );
    }
    if e < s.len() && char_is_alphabetic(s[e]) {
        let ue = scan_alnum(s, e);
        let name = slice_chars(s, e, ue);
        let col3 = col2 + (ue - e);
        match unit_of_exec(&name) {
            Some(u) => {
                let mut raw = text.clone();
                push_all(&mut raw, &name);
                let number = string_of(&text);
                let raw_s = string_of(&raw);
                return StepResult::Emit(Tok::UnitNum(Quantity { number, unit: u }, raw_s), ue, line, col3);
            },
            None => {
                let mut m: Vec<char> = Vec::new();
                push_str(&mut m, "unknown unit: '");
                push_all(&mut m, &name);
                push_str(&mut m, "' (use pt, mm, cm, in or %)");
                let message = string_of(&m);
                return StepResult::Fail(LexError { message, line, col: col3 });
            },
        }
    }
    if is_float {
        return StepResult::Emit(Tok::Float(string_of(&text)), e, line, col2);
    }
    assert forall|k: int| 0 <= k < text@.len() implies is_digit(#[trigger] text@[k]) by {
        lemma_digits_run(s@, i as int, i + k);
    }
    match int_value(&text) {
        Some(v) => StepResult::Emit(Tok::Int(v), e, line, col2),
        None => StepResult::Overflow,
    }
}

/// Every character of a run of digits is a digit.
proof fn lemma_digits_run(s: Seq<char>, i: int, k: int)
    requires
        0 <= i <= k < digits_end(s, i),
    ensures
        is_digit(s[k]),
    decreases k - i,
{
    if i < k {
        lemma_digits_run(s, i + 1, k);
    }
}

fn symbol_step_exec(s: &Vec<char>, i: usize, line: usize, col: usize) -> (r: StepResult)
    requires
        i < s.len() < usize::MAX / 4,
        1 <= line <= i + 1,
        1 <= col <= i + 1,
    ensures
        r@ == symbol_step(s@, i as int, line as nat, col as nat),
        step_bounds(r@, i as int, s.len() as int),
{
    let c = s[i];
    if i + 1 < s.len() {
        let d = s[i + 1];
        let two = if c == '=' && d == '=' {
            Some(Tok::EqEq)
        } else if c == '!' && d == '=' {
            Some(Tok::NotEq)
        } else if c == '<' && d == '=' {
            Some(Tok::LtEq)
        } else if c == '>' && d == '=' {
            Some(Tok::GtEq)
        } else if c == '&' && d == '&' {
            Some(Tok::AndAnd)
        } else if c == '|' && d == '|' {
            Some(Tok::OrOr)
        } else if c == ':' && d == ':' {
            Some(Tok::ColonColon)
        } else {
            None
        };
        if let Some(t) = two {
            return StepResult::Emit(t, i + 2, line, col + 2);
        }
    }
    let one = if c == '{' {
        Some(Tok::LBrace)
    } else if c == '}' {
        Some(Tok::RBrace)
    } else if c == '(' {
        Some(Tok::LParen)
    } else if c == ')' {
        Some(Tok::RParen)
    } else if c == '[' {
        Some(Tok::LBracket)
    } else if c == ']' {
        Some(Tok::RBracket)
    } else if c == ',' {
        Some(Tok::Comma)
    } else if c == ':' {
        Some(Tok::Colon)
    } else if c == '.' {
        Some(Tok::Dot)
    } else if c == '|' {
        Some(Tok::Pipe)
    } else if c == '=' {
        Some(Tok::Eq)
    } else if c == '<' {
        Some(Tok::Lt)
    } else if c == '>' {
        Some(Tok::Gt)
    } else if c == '+' {
        Some(Tok::Plus)
    } else if c == '-' {
        Some(Tok::Minus)
    } else if c == '*' {
        Some(Tok::Star)
    } else if c == '/' {
        Some(Tok::Slash)
    } else if c == '!' {
        Some(Tok::Bang)
    } else {
        None
    };
    match one {
        Some(t) => StepResult::Emit(t, i + 1, line, col + 1),
        None => {
            let mut m: Vec<char> = Vec::new();
            push_str(&mut m, "unexpected character: ");
            let d = debug_char(c);
            push_all(&mut m, &d);
            StepResult::Fail(LexError { message: string_of(&m), line, col })
        },
    }
}

fn lex_step_exec(s: &Vec<char>, i: usize, line: usize, col: usize, keep: bool) -> (r: StepResult)
    requires
        i < s.len() < usize::MAX / 4,
        1 <= line <= i + 1,
        1 <= col <= i + 1,
    ensures
        r@ == lex_step(s@, i as int, line as nat, col as nat, keep),
        step_bounds(r@, i as int, s.len() as int),
{
    let c = s[i];
    if c == ' ' || c == '\t' || c == '\r' {
        StepResult::Skip(i + 1, line, col + 1)
    } else if c == '\n' {
        StepResult::Emit(Tok::Newline, i + 1, line + 1, 1)
    } else if c == '/' && i + 1 < s.len() && s[i + 1] == '/' {
        let e = scan_line(s, i);
        if keep {
            let text = trim_range(s, i + 2, e);
            StepResult::Emit(Tok::Comment(string_of(&text)), e, line, col + (e - i))
        } else {
            StepResult::Skip(e, line, col + (e - i))
        }
    } else if c == '"' {
        match scan_str_exec(s, i + 1, line, col + 1) {
            Ok((segs, lit, j, col2)) => {
                let ghost done = finish_segs(segs_view(segs@), lit@);
                let mut segs = segs;
                if lit.len() > 0 || segs.len() == 0 {
                    segs.push(StrSeg::Lit(string_of(&lit)));
                }
                assert(segs_view(segs@) =~= done);
                StepResult::Emit(Tok::Str(segs), j, line, col2)
            },
            Err(e) => StepResult::Fail(e),
        }
    } else if '0' <= c && c <= '9' {
        number_step_exec(s, i, line, col)
    } else if char_is_alphabetic(c) || c == '_' {
        let e = scan_ident(s, i);
        let w = slice_chars(s, i, e);
        StepResult::Emit(word_tok_exec(&w), e, line, col + (e - i))
    } else {
        symbol_step_exec(s, i, line, col)
    }
}

/// Lexes `source` into the outcome `spec_tokenize` defines.
pub fn lex(source: &str, keep_comments: bool) -> (r: LexResult)
    ensures
        r@ == spec_tokenize(source@, keep_comments),
        r matches LexResult::Tokens(v) ==> v.len() <= usize::MAX / 4,
{
    let s = chars_of(source);
    let mut toks: Vec<Token> = Vec::new();
    let mut i: usize = 0;
    let mut line: usize = 1;
    let mut col: usize = 1;
    assert(toks_view(toks@) =~= Seq::<SpecToken>::empty());
    assert(prepend_all(seq![], lex_from(s@, 0, 1, 1, keep_comments)) == lex_from(s@, 0, 1, 1, keep_comments)) by {
        match lex_from(s@, 0, 1, 1, keep_comments) {
            LexOutcome::Tokens(r) => { assert(Seq::<SpecToken>::empty() + r =~= r); },
            _ => {},
        }
    }
    while i < s.len()
        invariant
            s@ == source@,
            s.len() < usize::MAX / 4,
            i <= s.len(),
            1 <= line <= i + 1,
            1 <= col <= i + 1,
            toks.len() <= i,
            spec_tokenize(s@, keep_comments) == prepend_all(
                toks_view(toks@),
                lex_from(s@, i as int, line as nat, col as nat, keep_comments),
            ),
        decreases s.len() - i,
    {
        match lex_step_exec(&s, i, line, col, keep_comments) {
            StepResult::Skip(j, l2, c2) => {
                i = j;
                line = l2;
                col = c2;
            },
            StepResult::Emit(t, j, l2, c2) => {
                let ghost before = toks_view(toks@);
                let ghost tok = SpecToken { tok: t@, line: line as nat, col: col as nat };
                let ghost rest = lex_from(s@, j as int, l2 as nat, c2 as nat, keep_comments);
                toks.push(Token { tok: t, line, col });
                assert(toks_view(toks@) =~= before.push(tok));
                assert(prepend_all(before, prepend_all(seq![tok], rest)) == prepend_all(before.push(tok), rest)) by {
                    match rest {
                        LexOutcome::Tokens(r) => {
                            assert(before + (seq![tok] + r) =~= before.push(tok) + r);
                        },
                        _ => {},
                    }
                }
                i = j;
                line = l2;
                col = c2;
            },
            StepResult::Fail(e) => {
                return LexResult::Failed(e);
            },
            StepResult::Overflow => {
                return LexResult::Overflow;
            },
        }
    }
    let ghost before = toks_view(toks@);
    let eof = Token { tok: Tok::Eof, line, col };
    toks.push(eof);
    assert(toks_view(toks@) =~= before + seq![eof@]);
    LexResult::Tokens(toks)
}

/// The token list of `source` without comments, or the first lexical error.
/// An integer literal beyond `i64` has no value in the language and halts
/// scanning outright, so the source must have none (`lexes_within_i64` tells).
pub fn tokenize(source: &str) -> (r: Result<Vec<Token>, LexError>)
    requires
        !(spec_tokenize(source@, false) is Overflow),
    ensures
        match spec_tokenize(source@, false) {
            LexOutcome::Tokens(ts) => r matches Ok(v) && toks_view(v@) == ts,
            LexOutcome::Failed(e) => r matches Err(x) && x@ == e,
            LexOutcome::Overflow => false,
        },
{
    tokenize_impl(source, false)
}

/// Variant for the formatter: keeps comments as tokens.
pub fn tokenize_with_comments(source: &str) -> (r: Result<Vec<Token>, LexError>)
    requires
        !(spec_tokenize(source@, true) is Overflow),
    ensures
        match spec_tokenize(source@, true) {
            LexOutcome::Tokens(ts) => r matches Ok(v) && toks_view(v@) == ts,
            LexOutcome::Failed(e) => r matches Err(x) && x@ == e,
            LexOutcome::Overflow => false,
        },
{
    tokenize_impl(source, true)
}

fn tokenize_impl(source: &str, keep_comments: bool) -> (r: Result<Vec<Token>, LexError>)
    requires
        !(spec_tokenize(source@, keep_comments) is Overflow),
    ensures
        match spec_tokenize(source@, keep_comments) {
            LexOutcome::Tokens(ts) => r matches Ok(v) && toks_view(v@) == ts,
            LexOutcome::Failed(e) => r matches Err(x) && x@ == e,
            LexOutcome::Overflow => false,
        },
{
    match lex(source, keep_comments) {
        LexResult::Tokens(v) => Ok(v),
        LexResult::Failed(e) => Err(e),
        LexResult::Overflow => Err(LexError { message: String::new(), line: 0, col: 0 }),
    }
}

/// Whether every integer literal of `source` fits in an `i64` (the lexers
/// above need it).
pub fn lexes_within_i64(source: &str, keep_comments: bool) -> (r: bool)
    ensures
        r == !(spec_tokenize(source@, keep_comments) is Overflow),
{
    match lex(source, keep_comments) {
        LexResult::Overflow => false,
        _ => true,
    }
}


/// A token stream always ends with `Eof`.
pub proof fn lemma_lex_ends_with_eof(s: Seq<char>, i: int, line: nat, col: nat, keep: bool)
    ensures
        lex_from(s, i, line, col, keep) matches LexOutcome::Tokens(ts) ==> ts.len() > 0
            && ts.last().tok is Eof,
    decreases s.len() - i,
{
    if 0 <= i < s.len() {
        match lex_step(s, i, line, col, keep) {
            Step::Skip(j, l2, c2) => {
                if i < j <= s.len() {
                    lemma_lex_ends_with_eof(s, j, l2, c2, keep);
                }
            },
            Step::Emit(t, j, l2, c2) => {
                if i < j <= s.len() {
                    lemma_lex_ends_with_eof(s, j, l2, c2, keep);
                    match lex_from(s, j, l2, c2, keep) {
                        LexOutcome::Tokens(r) => {
                            assert((seq![SpecToken { tok: t, line, col }] + r).last() == r.last());
                        },
                        _ => {},
                    }
                }
            },
            _ => {},
        }
    }
}

/// The tokens other than comments, in order.
pub open spec fn without_comments(ts: Seq<SpecToken>) -> Seq<SpecToken>
    decreases ts.len(),
{
    if ts.len() == 0 {
        seq![]
    } else if ts[0].tok is Comment {
        without_comments(ts.drop_first())
    } else {
        seq![ts[0]] + without_comments(ts.drop_first())
    }
}

/// An outcome with its comment tokens taken out.
pub open spec fn drop_comments(o: LexOutcome) -> LexOutcome {
    match o {
        LexOutcome::Tokens(ts) => LexOutcome::Tokens(without_comments(ts)),
        other => other,
    }
}

/// Lexing without comments gives what lexing with them gives, less the
/// comment tokens: the same other tokens, at the same lines and columns, in
/// the same order, and the same error when there is one.
pub proof fn lemma_comments_are_the_only_difference(s: Seq<char>, i: int, line: nat, col: nat)
    ensures
        lex_from(s, i, line, col, false) == drop_comments(lex_from(s, i, line, col, true)),
    decreases s.len() - i,
{
    if 0 <= i < s.len() {
        let c = s[i];
        let is_comment = c == '/' && i + 1 < s.len() && s[i + 1] == '/';
        match lex_step(s, i, line, col, true) {
            Step::Skip(j, l2, c2) => {
                assert(lex_step(s, i, line, col, false) == lex_step(s, i, line, col, true));
                if i < j <= s.len() {
                    lemma_comments_are_the_only_difference(s, j, l2, c2);
                }
            },
            Step::Emit(t, j, l2, c2) => {
                if i < j <= s.len() {
                    lemma_comments_are_the_only_difference(s, j, l2, c2);
                    let head = SpecToken { tok: t, line, col };
                    if is_comment {
                        assert(t is Comment);
                        assert(lex_step(s, i, line, col, false) == Step::Skip(j, l2, c2));
                        match lex_from(s, j, l2, c2, true) {
                            LexOutcome::Tokens(r) => {
                                assert((seq![head] + r)[0] == head);
                                assert((seq![head] + r).drop_first() =~= r);
                            },
                            _ => {},
                        }
                    } else {
                        assert(lex_step(s, i, line, col, false) == lex_step(s, i, line, col, true));
                        assert(!(t is Comment));
                        match lex_from(s, j, l2, c2, true) {
                            LexOutcome::Tokens(r) => {
                                assert((seq![head] + r)[0] == head);
                                assert((seq![head] + r).drop_first() =~= r);
                            },
                            _ => {},
                        }
                    }
                } else {
                    if is_comment {
                        assert(lex_step(s, i, line, col, false) matches Step::Skip(jj, _, _) && jj == j);
                    } else {
                        assert(lex_step(s, i, line, col, false) == lex_step(s, i, line, col, true));
                    }
                }
            },
            _ => {
                assert(lex_step(s, i, line, col, false) == lex_step(s, i, line, col, true));
            },
        }
    } else {
        assert(seq![SpecToken { tok: SpecTok::Eof, line, col }].drop_first() =~= Seq::<SpecToken>::empty());
        assert(without_comments(Seq::<SpecToken>::empty()) == Seq::<SpecToken>::empty());
        assert(seq![SpecToken { tok: SpecTok::Eof, line, col }] + Seq::<SpecToken>::empty() =~= seq![SpecToken { tok: SpecTok::Eof, line, col }]);
    }
}

} // verus!
