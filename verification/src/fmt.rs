//! `pdfl fmt` command — formatter for .pdfl scripts.
//! Formats from the tokens (preserving comments and the author's line
//! breaks): 2-space indentation per brace level, one space around
//! operators, blank lines collapsed to a single one.

use vstd::prelude::*;
use crate::lexer::{
    escape_chars, lex, one_char_op, scan_str, string_step, two_char_op, word_tok, Step, StrScan, segs_view, spec_tokenize, toks_view, LexError, LexOutcome, LexResult, SpecStrSeg, SpecTok,
    SpecToken, StrSeg, Tok, Token,
};
use crate::text::{nat_text, push_all, push_str, push_u64, string_of, chars_of, trim, trim_range};

verus! {

broadcast use vstd::string::group_string_axioms;

// ---------------------------------------------------------------------------
// What the formatter writes.
// ---------------------------------------------------------------------------

/// The decimal digits of an `i64`, with a minus sign when negative.
pub open spec fn i64_text(n: i64) -> Seq<char> {
    if n < 0 {
        seq!['-'] + nat_text((-(n as int)) as nat)
    } else {
        nat_text(n as nat)
    }
}

/// `s` without leading zeros, keeping at least one digit.
pub open spec fn strip_leading_zeros(s: Seq<char>) -> Seq<char>
    decreases s.len(),
{
    if s.len() > 1 && s[0] == '0' {
        strip_leading_zeros(s.drop_first())
    } else if s.len() == 0 {
        seq!['0']
    } else {
        s
    }
}

/// `s` without trailing zeros, keeping at least one digit.
pub open spec fn strip_trailing_zeros(s: Seq<char>) -> Seq<char>
    decreases s.len(),
{
    if s.len() > 1 && s.last() == '0' {
        strip_trailing_zeros(s.drop_last())
    } else if s.len() == 0 {
        seq!['0']
    } else {
        s
    }
}

/// The position of the first `.` in `s`, or its length.
pub open spec fn dot_pos(s: Seq<char>, i: int) -> int
    decreases s.len() - i,
{
    if 0 <= i < s.len() && s[i] != '.' {
        dot_pos(s, i + 1)
    } else {
        i
    }
}

/// A decimal literal written back in its shortest form: no leading zeros
/// before the point, no trailing zeros after it, one digit at least on each
/// side (`007.50` is `7.5`, `3.0` stays `3.0`).
pub open spec fn decimal_text(s: Seq<char>) -> Seq<char> {
    let p = dot_pos(s, 0);
    let frac = if p < s.len() { s.subrange(p + 1, s.len() as int) } else { seq![] };
    strip_leading_zeros(s.subrange(0, p)) + seq!['.'] + strip_trailing_zeros(frac)
}

/// The characters of one piece of literal text inside quotes, escaped.
pub open spec fn escape_lit(l: Seq<char>) -> Seq<char>
    decreases l.len(),
{
    if l.len() == 0 {
        seq![]
    } else {
        let c = l[0];
        let e = if c == '"' {
            seq!['\\', '"']
        } else if c == '\\' {
            seq!['\\', '\\']
        } else if c == '\n' {
            seq!['\\', 'n']
        } else if c == '\t' {
            seq!['\\', 't']
        } else {
            seq![c]
        };
        e + escape_lit(l.drop_first())
    }
}

/// The pieces of a string literal written out.
pub open spec fn render_segs(segs: Seq<SpecStrSeg>) -> Seq<char>
    decreases segs.len(),
{
    if segs.len() == 0 {
        seq![]
    } else {
        let first = match segs[0] {
            SpecStrSeg::Lit(l) => escape_lit(l),
            SpecStrSeg::Interp(src) => "#{"@ + trim(src) + "}"@,
        };
        first + render_segs(segs.drop_first())
    }
}

/// A string literal written out: quoted, literal chunks escaped,
/// interpolations trimmed.
pub open spec fn spec_render_string(segs: Seq<SpecStrSeg>) -> Seq<char> {
    seq!['"'] + render_segs(segs) + seq!['"']
}

/// How a token is written.
pub open spec fn spec_render_token(t: SpecTok) -> Seq<char> {
    match t {
        SpecTok::Int(n) => i64_text(n),
        SpecTok::Float(s) => decimal_text(s),
        SpecTok::UnitNum(_, raw) => raw,
        SpecTok::Str(segs) => spec_render_string(segs),
        SpecTok::True => "true"@,
        SpecTok::False => "false"@,
        SpecTok::Profile => "profile"@,
        SpecTok::Check => "check"@,
        SpecTok::Const => "const"@,
        SpecTok::Assert => "assert"@,
        SpecTok::Require => "require"@,
        SpecTok::Function => "function"@,
        SpecTok::Import => "import"@,
        SpecTok::Rule => "rule"@,
        SpecTok::On => "on"@,
        SpecTok::Ident(s) => s,
        SpecTok::LBrace => "{"@,
        SpecTok::RBrace => "}"@,
        SpecTok::LParen => "("@,
        SpecTok::RParen => ")"@,
        SpecTok::LBracket => "["@,
        SpecTok::RBracket => "]"@,
        SpecTok::Comma => ","@,
        SpecTok::Colon => ":"@,
        SpecTok::ColonColon => "::"@,
        SpecTok::Dot => "."@,
        SpecTok::Pipe => "|"@,
        SpecTok::Eq => "="@,
        SpecTok::EqEq => "=="@,
        SpecTok::NotEq => "!="@,
        SpecTok::Lt => "<"@,
        SpecTok::LtEq => "<="@,
        SpecTok::Gt => ">"@,
        SpecTok::GtEq => ">="@,
        SpecTok::Plus => "+"@,
        SpecTok::Minus => "-"@,
        SpecTok::Star => "*"@,
        SpecTok::Slash => "/"@,
        SpecTok::Bang => "!"@,
        SpecTok::AndAnd => "&&"@,
        SpecTok::OrOr => "||"@,
        SpecTok::Comment(text) => "// "@ + text,
        SpecTok::Newline => seq![],
        SpecTok::Eof => seq![],
    }
}

/// Should there be a space between `prev` and `next`? `in_params`: we are
/// inside a block's `|...|` (before `next`).
pub open spec fn spec_needs_space(prev: SpecTok, next: SpecTok, in_params: bool) -> bool {
    if prev is LParen || prev is LBracket || prev is Dot || prev is ColonColon || prev is Bang {
        // left-hugging: nothing comes after these
        false
    } else if prev is Pipe && in_params {
        // the opening pipe hugs the first parameter: "{ |page"
        false
    } else if next is RParen || next is RBracket || next is Comma || next is Dot
        || next is ColonColon || next is Colon {
        // right-hugging: nothing comes before these
        false
    } else if next is Pipe {
        // inside params it is the closing pipe ("page|"); outside, the opening one (" |")
        !in_params
    } else if next is LParen {
        // call: ident( hugs; grouping after an operator gets a space
        !(prev is Ident || prev is RParen || prev is RBracket)
    } else {
        true
    }
}

/// The tokens of a line from position `i` on, written out; `in_params` is
/// the block-parameter state before token `i`.
pub open spec fn render_from(toks: Seq<SpecTok>, i: int, in_params: bool) -> Seq<char>
    decreases toks.len() - i,
{
    if i < 0 || i >= toks.len() {
        seq![]
    } else {
        let space = if i > 0 && spec_needs_space(toks[i - 1], toks[i], in_params) {
            seq![' ']
        } else {
            seq![]
        };
        let next_params = if toks[i] is Pipe { !in_params } else { in_params };
        space + spec_render_token(toks[i]) + render_from(toks, i + 1, next_params)
    }
}

/// A line of tokens written out.
pub open spec fn spec_render_line(toks: Seq<SpecTok>) -> Seq<char> {
    render_from(toks, 0, false)
}

/// How many tokens at the start of a line close a block.
pub open spec fn leading_closers(toks: Seq<SpecTok>) -> nat
    decreases toks.len(),
{
    if toks.len() > 0 && toks[0] is RBrace {
        1 + leading_closers(toks.drop_first())
    } else {
        0
    }
}

/// The brace depth after a line, from `depth` before it (a closer never
/// takes it below zero).
pub open spec fn depth_after(toks: Seq<SpecTok>, depth: nat) -> nat
    decreases toks.len(),
{
    if toks.len() == 0 {
        depth
    } else {
        let d = if toks[0] is LBrace {
            depth + 1
        } else if toks[0] is RBrace {
            if depth > 0 { (depth - 1) as nat } else { 0 }
        } else {
            depth
        };
        depth_after(toks.drop_first(), d)
    }
}

/// `n` copies of two spaces.
pub open spec fn indent_text(n: nat) -> Seq<char>
    decreases n,
{
    if n == 0 {
        seq![]
    } else {
        indent_text((n - 1) as nat) + seq![' ', ' ']
    }
}

/// The formatter's state between tokens: the text written, the brace depth,
/// the tokens of the line being read, and whether a blank line is owed.
pub struct FmtState {
    pub out: Seq<char>,
    pub depth: nat,
    pub line: Seq<SpecTok>,
    pub blank: bool,
}

/// The state after one token. A line break (or the end) writes the pending
/// line — dedented by its leading closers, after one blank line if one is
/// owed — or, on an empty line, owes a blank line unless nothing has been
/// written yet.
pub open spec fn fmt_step(st: FmtState, t: SpecTok) -> FmtState {
    if !(t is Newline || t is Eof) {
        FmtState { line: st.line.push(t), ..st }
    } else if st.line.len() == 0 {
        FmtState { blank: st.out.len() > 0, ..st }
    } else {
        let closers = leading_closers(st.line);
        let indent = if st.depth >= closers { (st.depth - closers) as nat } else { 0 };
        let out = (if st.blank { st.out.push('\n') } else { st.out }) + indent_text(indent)
            + spec_render_line(st.line) + seq!['\n'];
        FmtState { out, depth: depth_after(st.line, st.depth), line: seq![], blank: false }
    }
}

/// The state after the tokens `toks[0..n]`.
pub open spec fn fmt_prefix(toks: Seq<SpecTok>, n: int) -> FmtState
    decreases n,
{
    if n <= 0 {
        FmtState { out: seq![], depth: 0, line: seq![], blank: false }
    } else {
        fmt_step(fmt_prefix(toks, n - 1), toks[n - 1])
    }
}

/// The formatted text of a token stream (one more end marker flushes the
/// last line).
pub open spec fn spec_format(toks: Seq<SpecToken>) -> Seq<char> {
    let ts = toks.map_values(|t: SpecToken| t.tok).push(SpecTok::Eof);
    fmt_prefix(ts, ts.len() as int).out
}


// ---------------------------------------------------------------------------
// The formatter.
// ---------------------------------------------------------------------------

/// Appends the decimal digits of `n`, with a minus sign when negative.
pub fn push_i64(out: &mut Vec<char>, n: i64)
    ensures
        final(out)@ == old(out)@ + i64_text(n),
{
    if n < 0 {
        out.push('-');
        let m: u64 = if n == i64::MIN { 9223372036854775808u64 } else { (-n) as u64 };
        push_u64(out, m);
        assert(final(out)@ =~= old(out)@ + i64_text(n));
    } else {
        push_u64(out, n as u64);
    }
}

/// Appends `decimal_text(s)`.
fn push_decimal(out: &mut Vec<char>, s: &Vec<char>)
    ensures
        final(out)@ == old(out)@ + decimal_text(s@),
{
    let mut p: usize = 0;
    while p < s.len() && s[p] != '.'
        invariant
            p <= s.len(),
            dot_pos(s@, p as int) == dot_pos(s@, 0),
        decreases s.len() - p,
    {
        p = p + 1;
    }
    // integer part, leading zeros dropped
    let mut a: usize = 0;
    while p > 0 && a < p - 1 && s[a] == '0'
        invariant
            a <= p <= s.len(),
            p == 0 ==> a == 0,
            p > 0 ==> a < p,
            strip_leading_zeros(s@.subrange(0, p as int)) == strip_leading_zeros(
                s@.subrange(a as int, p as int),
            ),
        decreases p - a,
    {
        assert(s@.subrange(a as int, p as int).drop_first() =~= s@.subrange(a + 1, p as int));
        a = a + 1;
    }
    if p == 0 {
        out.push('0');
        assert(strip_leading_zeros(s@.subrange(0, 0)) =~= seq!['0']);
    } else {
        assert(s@.subrange(a as int, p as int)[0] == s@[a as int]);
        assert(strip_leading_zeros(s@.subrange(a as int, p as int)) == s@.subrange(a as int, p as int));
        let ip = crate::text::slice_chars(s, a, p);
        push_all(out, &ip);
    }
    out.push('.');
    let ghost after_point = out@;
    // fraction, trailing zeros dropped
    let start = if p < s.len() { p + 1 } else { s.len() };
    let ghost frac = if p < s.len() { s@.subrange(p + 1, s.len() as int) } else { seq![] };
    assert(frac =~= s@.subrange(start as int, s.len() as int));
    let mut b: usize = s.len();
    while b - start > 1 && s[b - 1] == '0'
        invariant
            start <= b <= s.len(),
            start == s.len() ==> b == start,
            strip_trailing_zeros(frac) == strip_trailing_zeros(s@.subrange(start as int, b as int)),
        decreases b,
    {
        assert(s@.subrange(start as int, b as int).drop_last() =~= s@.subrange(
            start as int,
            b - 1,
        ));
        b = b - 1;
    }
    if b == start {
        out.push('0');
        assert(strip_trailing_zeros(s@.subrange(start as int, b as int)) =~= seq!['0']);
    } else {
        assert(strip_trailing_zeros(s@.subrange(start as int, b as int)) == s@.subrange(start as int, b as int));
        let fp = crate::text::slice_chars(s, start, b);
        push_all(out, &fp);
    }
    assert(final(out)@ =~= old(out)@ + decimal_text(s@));
}

/// Appends `l` escaped for a string literal.
fn push_escaped(out: &mut Vec<char>, l: &Vec<char>)
    ensures
        final(out)@ == old(out)@ + escape_lit(l@),
{
    let mut k: usize = 0;
    assert(l@.subrange(0, l.len() as int) =~= l@);
    while k < l.len()
        invariant
            k <= l.len(),
            out@ + escape_lit(l@.subrange(k as int, l.len() as int)) == old(out)@ + escape_lit(l@),
        decreases l.len() - k,
    {
        let ghost before = out@;
        let ghost rest = l@.subrange(k as int, l.len() as int);
        assert(rest.drop_first() =~= l@.subrange(k + 1, l.len() as int));
        let c = l[k];
        if c == '"' {
            out.push('\\');
            out.push('"');
        } else if c == '\\' {
            out.push('\\');
            out.push('\\');
        } else if c == '\n' {
            out.push('\\');
            out.push('n');
        } else if c == '\t' {
            out.push('\\');
            out.push('t');
        } else {
            out.push(c);
        }
        k = k + 1;
        assert(out@ + escape_lit(l@.subrange(k as int, l.len() as int)) =~= before + escape_lit(
            rest,
        ));
    }
    assert(l@.subrange(l.len() as int, l.len() as int) =~= Seq::<char>::empty());
    assert(out@ =~= out@ + escape_lit(Seq::<char>::empty()));
}

/// Appends a string literal written out.
pub fn render_string(out: &mut Vec<char>, segs: &Vec<StrSeg>)
    ensures
        final(out)@ == old(out)@ + spec_render_string(segs_view(segs@)),
{
    out.push('"');
    let ghost start = out@;
    let mut k: usize = 0;
    assert(segs_view(segs@).subrange(0, segs.len() as int) =~= segs_view(segs@));
    while k < segs.len()
        invariant
            k <= segs.len(),
            out@ + render_segs(segs_view(segs@).subrange(k as int, segs.len() as int)) == start
                + render_segs(segs_view(segs@)),
        decreases segs.len() - k,
    {
        let ghost before = out@;
        let ghost rest = segs_view(segs@).subrange(k as int, segs.len() as int);
        assert(rest.drop_first() =~= segs_view(segs@).subrange(k + 1, segs.len() as int));
        match &segs[k] {
            StrSeg::Lit(l) => {
                let lc = chars_of(l.as_str());
                push_escaped(out, &lc);
            },
            StrSeg::Interp(src) => {
                push_str(out, "#{");
                let sc = chars_of(src.as_str());
                let t = trim_range(&sc, 0, sc.len());
                assert(sc@.subrange(0, sc@.len() as int) =~= sc@);
                push_all(out, &t);
                push_str(out, "}");
            },
        }
        k = k + 1;
        assert(out@ + render_segs(segs_view(segs@).subrange(k as int, segs.len() as int))
            =~= before + render_segs(rest));
    }
    assert(segs_view(segs@).subrange(segs.len() as int, segs.len() as int) =~= Seq::<
        SpecStrSeg,
    >::empty());
    assert(segs_view(segs@).subrange(0, segs.len() as int) =~= segs_view(segs@));
    out.push('"');
    assert(final(out)@ =~= old(out)@ + spec_render_string(segs_view(segs@)));
}

/// Appends how a token is written.
pub fn render_token(out: &mut Vec<char>, tok: &Tok)
    ensures
        final(out)@ == old(out)@ + spec_render_token(tok@),
{
    match tok {
        Tok::Int(n) => push_i64(out, *n),
        Tok::Float(s) => {
            let c = chars_of(s.as_str());
            push_decimal(out, &c);
        },
        Tok::UnitNum(_, raw) => push_str(out, raw.as_str()),
        Tok::Str(segs) => render_string(out, segs),
        Tok::True => push_str(out, "true"),
        Tok::False => push_str(out, "false"),
        Tok::Profile => push_str(out, "profile"),
        Tok::Check => push_str(out, "check"),
        Tok::Const => push_str(out, "const"),
        Tok::Assert => push_str(out, "assert"),
        Tok::Require => push_str(out, "require"),
        Tok::Function => push_str(out, "function"),
        Tok::Import => push_str(out, "import"),
        Tok::Rule => push_str(out, "rule"),
        Tok::On => push_str(out, "on"),
        Tok::Ident(s) => push_str(out, s.as_str()),
        Tok::LBrace => push_str(out, "{"),
        Tok::RBrace => push_str(out, "}"),
        Tok::LParen => push_str(out, "("),
        Tok::RParen => push_str(out, ")"),
        Tok::LBracket => push_str(out, "["),
        Tok::RBracket => push_str(out, "]"),
        Tok::Comma => push_str(out, ","),
        Tok::Colon => push_str(out, ":"),
        Tok::ColonColon => push_str(out, "::"),
        Tok::Dot => push_str(out, "."),
        Tok::Pipe => push_str(out, "|"),
        Tok::Eq => push_str(out, "="),
        Tok::EqEq => push_str(out, "=="),
        Tok::NotEq => push_str(out, "!="),
        Tok::Lt => push_str(out, "<"),
        Tok::LtEq => push_str(out, "<="),
        Tok::Gt => push_str(out, ">"),
        Tok::GtEq => push_str(out, ">="),
        Tok::Plus => push_str(out, "+"),
        Tok::Minus => push_str(out, "-"),
        Tok::Star => push_str(out, "*"),
        Tok::Slash => push_str(out, "/"),
        Tok::Bang => push_str(out, "!"),
        Tok::AndAnd => push_str(out, "&&"),
        Tok::OrOr => push_str(out, "||"),
        Tok::Comment(text) => {
            push_str(out, "// ");
            push_str(out, text.as_str());
        },
        Tok::Newline => {
            assert(old(out)@ + Seq::<char>::empty() =~= old(out)@);
        },
        Tok::Eof => {
            assert(old(out)@ + Seq::<char>::empty() =~= old(out)@);
        },
    }
}

/// Should there be a space between `prev` and `next`?
/// `in_params` = we are inside a block's `|...|` (before `next`).
pub fn needs_space(prev: &Tok, next: &Tok, in_params: bool) -> (r: bool)
    ensures
        r == spec_needs_space(prev@, next@, in_params),
{
    // left-hugging: nothing comes after these
    if matches!(prev, Tok::LParen | Tok::LBracket | Tok::Dot | Tok::ColonColon | Tok::Bang) {
        return false;
    }
    // the opening pipe hugs the first parameter: "{ |page"
    if matches!(prev, Tok::Pipe) && in_params {
        return false;
    }
    // right-hugging: nothing comes before these
    if matches!(next, Tok::RParen | Tok::RBracket | Tok::Comma | Tok::Dot | Tok::ColonColon | Tok::Colon) {
        return false;
    }
    if matches!(next, Tok::Pipe) {
        // inside params it is the closing pipe ("page|"); outside, the opening one (" |")
        return !in_params;
    }
    // call: ident( hugs; grouping after an operator gets a space
    if matches!(next, Tok::LParen) {
        return !matches!(prev, Tok::Ident(_) | Tok::RParen | Tok::RBracket);
    }
    true
}

/// The token kinds of `toks`, then one more end marker.
pub open spec fn kinds(toks: Seq<Token>) -> Seq<SpecTok> {
    toks_view(toks).map_values(|t: SpecToken| t.tok).push(SpecTok::Eof)
}

/// Appends the line made of `toks[from..to]` written out.
fn render_line(out: &mut Vec<char>, toks: &Vec<Token>, from: usize, to: usize)
    requires
        from < to <= toks.len(),
    ensures
        final(out)@ == old(out)@ + spec_render_line(kinds(toks@).subrange(from as int, to as int)),
{
    let ghost line = kinds(toks@).subrange(from as int, to as int);
    let mut in_params = false;
    let mut k: usize = from;
    while k < to
        invariant
            from <= k <= to <= toks.len(),
            line == kinds(toks@).subrange(from as int, to as int),
            out@ + render_from(line, k - from, in_params) == old(out)@ + render_from(line, 0, false),
        decreases to - k,
    {
        let ghost before = out@;
        let ghost p0 = in_params;
        if k > from && needs_space(&toks[k - 1].tok, &toks[k].tok, in_params) {
            out.push(' ');
        }
        if matches!(toks[k].tok, Tok::Pipe) {
            in_params = !in_params;
        }
        render_token(out, &toks[k].tok);
        k = k + 1;
        assert(out@ + render_from(line, k - from, in_params) =~= before + render_from(
            line,
            k - 1 - from,
            p0,
        ));
    }
    assert(out@ + render_from(line, k - from, in_params) =~= out@);
}

/// `tokenize_with_comments`, with the bound on the number of tokens that
/// the lexer keeps (one per character read, and the end marker).
fn tokenize_bounded(source: &str) -> (r: Result<Vec<Token>, LexError>)
    requires
        !(spec_tokenize(source@, true) is Overflow),
    ensures
        match spec_tokenize(source@, true) {
            LexOutcome::Tokens(ts) => r matches Ok(v) && toks_view(v@) == ts && v.len() <= usize::MAX / 4,
            LexOutcome::Failed(e) => r matches Err(x) && x@ == e,
            LexOutcome::Overflow => false,
        },
{
    match lex(source, true) {
        LexResult::Tokens(v) => Ok(v),
        LexResult::Failed(e) => Err(e),
        LexResult::Overflow => Err(LexError { message: String::new(), line: 0, col: 0 }),
    }
}

/// The source formatted, or the lexical error that stops it.
pub fn format_source(source: &str) -> (r: Result<String, LexError>)
    requires
        !(spec_tokenize(source@, true) is Overflow),
    ensures
        match spec_tokenize(source@, true) {
            LexOutcome::Tokens(ts) => r matches Ok(text) && text@ == spec_format(ts),
            LexOutcome::Failed(e) => r matches Err(x) && x@ == e,
            LexOutcome::Overflow => false,
        },
{
    let toks = match tokenize_bounded(source) {
        Ok(t) => t,
        Err(e) => return Err(e),
    };
    let ghost ts = kinds(toks@);
    let n = toks.len();
    let mut out: Vec<char> = Vec::new();
    let mut depth: usize = 0;
    let mut line_start: usize = 0;
    let mut blank_pending = false;
    let mut i: usize = 0;
    assert(ts.subrange(0, 0) =~= Seq::<SpecTok>::empty());
    while i <= n
        invariant
            n == toks.len(),
            n <= usize::MAX / 4,
            ts == kinds(toks@),
            ts.len() == n + 1,
            line_start <= i <= n + 1,
            depth <= line_start,
            fmt_prefix(ts, i as int) == (FmtState {
                out: out@,
                depth: depth as nat,
                line: ts.subrange(line_start as int, i as int),
                blank: blank_pending,
            }),
        decreases n + 1 - i,
    {
        let at_break = i == n || matches!(toks[i].tok, Tok::Newline | Tok::Eof);
        assert(i < n ==> ts[i as int] == toks@[i as int].tok@);
        assert(i == n ==> ts[i as int] == SpecTok::Eof);
        assert(at_break == (ts[i as int] is Newline || ts[i as int] is Eof));
        let ghost prev = fmt_prefix(ts, i as int);
        assert(fmt_prefix(ts, i + 1) == fmt_step(prev, ts[i as int]));
        if !at_break {
            assert(ts.subrange(line_start as int, i + 1) =~= ts.subrange(line_start as int, i as int).push(ts[i as int]));
            assert(fmt_prefix(ts, i + 1) == (FmtState {
                out: out@,
                depth: depth as nat,
                line: ts.subrange(line_start as int, i + 1),
                blank: blank_pending,
            }));
        } else if line_start == i {
            assert(ts.subrange(i as int, i as int) =~= Seq::<SpecTok>::empty());
            blank_pending = out.len() > 0;
            line_start = i + 1;
            assert(ts.subrange(line_start as int, i + 1) =~= Seq::<SpecTok>::empty());
            assert(fmt_prefix(ts, i + 1) == (FmtState {
                out: out@,
                depth: depth as nat,
                line: ts.subrange(line_start as int, i + 1),
                blank: blank_pending,
            }));
        } else {
            let ghost line = ts.subrange(line_start as int, i as int);
            let ghost out0 = out@;
            let ghost blank0 = blank_pending;
            // dedent first if the line starts by closing blocks
            let mut closers: usize = 0;
            while line_start + closers < i && matches!(toks[line_start + closers].tok, Tok::RBrace)
                invariant
                    line_start + closers <= i <= n,
                    n == toks.len(),
                    ts.len() == n + 1,
                    ts == kinds(toks@),
                    line == ts.subrange(line_start as int, i as int),
                    leading_closers(line) == closers + leading_closers(
                        ts.subrange((line_start + closers) as int, i as int),
                    ),
                decreases i - line_start - closers,
            {
                assert(ts.subrange((line_start + closers) as int, i as int).drop_first() =~= ts.subrange(
                    (line_start + closers + 1) as int,
                    i as int,
                ));
                closers = closers + 1;
            }
            assert(leading_closers(ts.subrange((line_start + closers) as int, i as int)) == 0) by {
                if line_start + closers < i {
                    assert(ts.subrange((line_start + closers) as int, i as int)[0] == ts[(line_start + closers) as int]);
                    assert(ts[(line_start + closers) as int] == toks@[(line_start + closers) as int].tok@);
                }
            }
            let indent = if depth >= closers { depth - closers } else { 0 };
            if blank_pending {
                out.push('\n');
                blank_pending = false;
            }
            let ghost before_indent = out@;
            let mut k: usize = 0;
            while k < indent
                invariant
                    k <= indent,
                    out@ == before_indent + indent_text(k as nat),
                decreases indent - k,
            {
                out.push(' ');
                out.push(' ');
                k = k + 1;
                assert(out@ =~= before_indent + indent_text(k as nat));
            }
            let ghost before_line = out@;
            render_line(&mut out, &toks, line_start, i);
            out.push('\n');
            assert(out@ =~= (if blank0 { out0.push('\n') } else { out0 }) + indent_text(indent as nat)
                + spec_render_line(line) + seq!['\n']);
            // the depth after the line
            let mut k2: usize = line_start;
            let ghost depth0 = depth;
            while k2 < i
                invariant
                    line_start <= k2 <= i <= n,
                    n == toks.len(),
                    ts.len() == n + 1,
                    ts == kinds(toks@),
                    line == ts.subrange(line_start as int, i as int),
                    depth <= k2,
                    depth_after(line, depth0 as nat) == depth_after(
                        ts.subrange(k2 as int, i as int),
                        depth as nat,
                    ),
                decreases i - k2,
            {
                assert(ts.subrange(k2 as int, i as int).drop_first() =~= ts.subrange(
                    k2 + 1,
                    i as int,
                ));
                assert(ts.subrange(k2 as int, i as int)[0] == toks@[k2 as int].tok@);
                match toks[k2].tok {
                    Tok::LBrace => {
                        depth = depth + 1;
                    },
                    Tok::RBrace => {
                        if depth > 0 {
                            depth = depth - 1;
                        }
                    },
                    _ => {},
                }
                k2 = k2 + 1;
            }
            assert(ts.subrange(i as int, i as int) =~= Seq::<SpecTok>::empty());
            assert(depth_after(line, depth0 as nat) == depth);
            line_start = i + 1;
            assert(ts.subrange(line_start as int, i + 1) =~= Seq::<SpecTok>::empty());
            assert(fmt_prefix(ts, i + 1) == (FmtState {
                out: out@,
                depth: depth as nat,
                line: ts.subrange(line_start as int, i + 1),
                blank: blank_pending,
            }));
        }
        i = i + 1;
    }
    Ok(string_of(&out))
}


// ---------------------------------------------------------------------------
// What formatting keeps.
// ---------------------------------------------------------------------------

/// `s` without its spaces and line breaks: what is left when the layout
/// is taken out.
pub open spec fn layout_free(s: Seq<char>) -> Seq<char>
    decreases s.len(),
{
    if s.len() == 0 {
        seq![]
    } else if s.last() == ' ' || s.last() == '\n' {
        layout_free(s.drop_last())
    } else {
        layout_free(s.drop_last()).push(s.last())
    }
}

/// The tokens written one after another, with nothing between them.
pub open spec fn tokens_text(toks: Seq<SpecTok>) -> Seq<char>
    decreases toks.len(),
{
    if toks.len() == 0 {
        seq![]
    } else {
        tokens_text(toks.drop_last()) + spec_render_token(toks.last())
    }
}

proof fn lemma_layout_free_append(a: Seq<char>, b: Seq<char>)
    ensures
        layout_free(a + b) == layout_free(a) + layout_free(b),
    decreases b.len(),
{
    if b.len() == 0 {
        assert(a + b =~= a);
        assert(layout_free(a) + layout_free(b) =~= layout_free(a));
    } else {
        assert((a + b).drop_last() =~= a + b.drop_last());
        assert((a + b).last() == b.last());
        lemma_layout_free_append(a, b.drop_last());
        if !(b.last() == ' ' || b.last() == '\n') {
            assert(layout_free(a) + layout_free(b.drop_last()).push(b.last()) =~= (layout_free(a)
                + layout_free(b.drop_last())).push(b.last()));
        }
    }
}

proof fn lemma_layout_free_spaces()
    ensures
        layout_free(seq![' ']) == Seq::<char>::empty(),
        layout_free(seq![' ', ' ']) == Seq::<char>::empty(),
        layout_free(seq!['\n']) == Seq::<char>::empty(),
        layout_free(Seq::<char>::empty()) == Seq::<char>::empty(),
{
    assert(seq![' ', ' '].drop_last() =~= seq![' ']);
    assert(seq![' '].drop_last() =~= Seq::<char>::empty());
    assert(seq!['\n'].drop_last() =~= Seq::<char>::empty());
    assert(layout_free(Seq::<char>::empty()) == Seq::<char>::empty());
    assert(layout_free(seq![' ']) == layout_free(Seq::<char>::empty()));
    assert(layout_free(seq![' ', ' ']) == layout_free(seq![' ']));
    assert(layout_free(seq!['\n']) == layout_free(Seq::<char>::empty()));
}

proof fn lemma_tokens_text_single(t: SpecTok)
    ensures
        tokens_text(seq![t]) == spec_render_token(t),
{
    assert(seq![t].drop_last() =~= Seq::<SpecTok>::empty());
    assert(tokens_text(Seq::<SpecTok>::empty()) == Seq::<char>::empty());
    assert(tokens_text(seq![t]) == tokens_text(Seq::<SpecTok>::empty()) + spec_render_token(t));
    assert(Seq::<char>::empty() + spec_render_token(t) =~= spec_render_token(t));
}

proof fn lemma_layout_free_indent(n: nat)
    ensures
        layout_free(indent_text(n)) == Seq::<char>::empty(),
    decreases n,
{
    if n > 0 {
        lemma_layout_free_indent((n - 1) as nat);
        lemma_layout_free_append(indent_text((n - 1) as nat), seq![' ', ' ']);
        lemma_layout_free_spaces();
    }
}

proof fn lemma_tokens_text_append(a: Seq<SpecTok>, b: Seq<SpecTok>)
    ensures
        tokens_text(a + b) == tokens_text(a) + tokens_text(b),
    decreases b.len(),
{
    if b.len() == 0 {
        assert(a + b =~= a);
        assert(tokens_text(a) + tokens_text(b) =~= tokens_text(a));
    } else {
        assert((a + b).drop_last() =~= a + b.drop_last());
        lemma_tokens_text_append(a, b.drop_last());
        assert(tokens_text(a) + (tokens_text(b.drop_last()) + spec_render_token(b.last())) =~= (tokens_text(a)
            + tokens_text(b.drop_last())) + spec_render_token(b.last()));
    }
}

proof fn lemma_render_from_layout(toks: Seq<SpecTok>, i: int, in_params: bool)
    requires
        0 <= i <= toks.len(),
    ensures
        layout_free(render_from(toks, i, in_params)) == layout_free(tokens_text(toks.subrange(i, toks.len() as int))),
    decreases toks.len() - i,
{
    if i == toks.len() {
        assert(toks.subrange(i, toks.len() as int) =~= Seq::<SpecTok>::empty());
    } else {
        let space = if i > 0 && spec_needs_space(toks[i - 1], toks[i], in_params) {
            seq![' ']
        } else {
            seq![]
        };
        let next_params = if toks[i] is Pipe { !in_params } else { in_params };
        lemma_render_from_layout(toks, i + 1, next_params);
        let tail = toks.subrange(i + 1, toks.len() as int);
        assert(toks.subrange(i, toks.len() as int) =~= seq![toks[i]] + tail);
        lemma_tokens_text_append(seq![toks[i]], tail);
        lemma_tokens_text_single(toks[i]);
        lemma_layout_free_append(space + spec_render_token(toks[i]), render_from(toks, i + 1, next_params));
        lemma_layout_free_append(space, spec_render_token(toks[i]));
        lemma_layout_free_append(spec_render_token(toks[i]), tokens_text(tail));
        lemma_layout_free_spaces();
        assert(layout_free(space) =~= Seq::<char>::empty());
        assert(Seq::<char>::empty() + layout_free(spec_render_token(toks[i])) =~= layout_free(spec_render_token(toks[i])));
    }
}

proof fn lemma_fmt_prefix_layout(toks: Seq<SpecTok>, n: int)
    requires
        0 <= n <= toks.len(),
    ensures
        layout_free(fmt_prefix(toks, n).out) + layout_free(tokens_text(fmt_prefix(toks, n).line))
            == layout_free(tokens_text(toks.take(n))),
    decreases n,
{
    if n == 0 {
        assert(toks.take(0) =~= Seq::<SpecTok>::empty());
        assert(layout_free(Seq::<char>::empty()) + layout_free(Seq::<char>::empty()) =~= Seq::<char>::empty());
    } else {
        lemma_fmt_prefix_layout(toks, n - 1);
        let st = fmt_prefix(toks, n - 1);
        let t = toks[n - 1];
        assert(toks.take(n).drop_last() =~= toks.take(n - 1));
        assert(toks.take(n).last() == t);
        lemma_layout_free_append(tokens_text(toks.take(n - 1)), spec_render_token(t));
        if !(t is Newline || t is Eof) {
            assert(st.line.push(t).drop_last() =~= st.line);
            lemma_layout_free_append(tokens_text(st.line), spec_render_token(t));
        } else {
            assert(spec_render_token(t) =~= Seq::<char>::empty());
            assert(layout_free(tokens_text(toks.take(n - 1))) + layout_free(Seq::<char>::empty()) =~= layout_free(
                tokens_text(toks.take(n - 1)),
            ));
            if st.line.len() > 0 {
                let closers = leading_closers(st.line);
                let indent = if st.depth >= closers { (st.depth - closers) as nat } else { 0 };
                let base = if st.blank { st.out.push('\n') } else { st.out };
                if st.blank {
                    assert(st.out.push('\n').drop_last() =~= st.out);
                }
                lemma_layout_free_indent(indent);
                lemma_layout_free_append(base, indent_text(indent));
                lemma_layout_free_append(base + indent_text(indent), spec_render_line(st.line));
                lemma_layout_free_append(base + indent_text(indent) + spec_render_line(st.line), seq!['\n']);
                lemma_layout_free_spaces();
                lemma_render_from_layout(st.line, 0, false);
                assert(st.line.subrange(0, st.line.len() as int) =~= st.line);
                assert(layout_free(base) + Seq::<char>::empty() =~= layout_free(base));
            }
        }
    }
}

/// Formatting changes only the layout: take the spaces and line breaks out
/// of the formatted text and what is left is the script's tokens written
/// one after another, comments included, in their order.
pub proof fn lemma_format_changes_only_layout(toks: Seq<SpecToken>)
    ensures
        layout_free(spec_format(toks)) == layout_free(tokens_text(toks.map_values(|t: SpecToken| t.tok))),
{
    let plain = toks.map_values(|t: SpecToken| t.tok);
    let ts = plain.push(SpecTok::Eof);
    lemma_fmt_prefix_layout(ts, ts.len() as int);
    assert(ts.take(ts.len() as int) =~= ts);
    assert(ts.drop_last() =~= plain);
    let before = fmt_prefix(ts, ts.len() - 1);
    assert(fmt_prefix(ts, ts.len() as int) == fmt_step(before, SpecTok::Eof));
    assert(fmt_prefix(ts, ts.len() as int).line =~= Seq::<SpecTok>::empty());
    assert(tokens_text(Seq::<SpecTok>::empty()) =~= Seq::<char>::empty());
    assert(layout_free(spec_format(toks)) + Seq::<char>::empty() =~= layout_free(spec_format(toks)));
    assert(tokens_text(ts) == tokens_text(plain) + Seq::<char>::empty());
    assert(tokens_text(plain) + Seq::<char>::empty() =~= tokens_text(plain));
}


// ---------------------------------------------------------------------------
// Written strings read back.
// ---------------------------------------------------------------------------

/// `l` holds `#{`, which inside quotes opens an interpolation.
pub open spec fn opens_interpolation(l: Seq<char>) -> bool {
    exists|k: int| 0 <= k < l.len() - 1 && #[trigger] l[k] == '#' && l[k + 1] == '{'
}

proof fn lemma_escape_lit_first(l: Seq<char>)
    requires
        l.len() > 0,
    ensures
        escape_lit(l).len() > 0,
        escape_lit(l)[0] == '{' <==> l[0] == '{',
        escape_lit(l)[0] != '"',
        escape_lit(l)[0] != '\n',
{
}

proof fn lemma_scan_escaped(
    s: Seq<char>,
    j: int,
    line: nat,
    col: nat,
    segs: Seq<SpecStrSeg>,
    acc: Seq<char>,
    l: Seq<char>,
)
    requires
        0 <= j,
        j + escape_lit(l).len() < s.len(),
        s.subrange(j, j + escape_lit(l).len()) == escape_lit(l),
        s[j + escape_lit(l).len()] == '"',
        !opens_interpolation(l),
    ensures
        scan_str(s, j, line, col, segs, acc) matches StrScan::Done(sg, lt, jj, _) && sg == segs && lt == acc + l
            && jj == j + escape_lit(l).len() + 1,
    decreases l.len(),
{
    let e = escape_lit(l);
    if l.len() == 0 {
        assert(acc + l =~= acc);
    } else {
        let c = l[0];
        let rest = l.drop_first();
        let er = escape_lit(rest);
        let w: int = if c == '"' || c == '\\' || c == '\n' || c == '\t' { 2 } else { 1 };
        assert(e.len() == w + er.len());
        assert(s[j] == e[0]);
        assert(!opens_interpolation(rest)) by {
            if opens_interpolation(rest) {
                let k = choose|k: int| 0 <= k < rest.len() - 1 && #[trigger] rest[k] == '#' && rest[k + 1] == '{';
                assert(l[k + 1] == '#' && l[k + 2] == '{');
            }
        }
        assert(s.subrange(j + w, j + w + er.len()) =~= er) by {
            assert forall|i: int| 0 <= i < er.len() implies s.subrange(j + w, j + w + er.len())[i] == er[i] by {
                assert(s[j + w + i] == s.subrange(j, j + e.len())[w + i]);
                assert(e[w + i] == er[i]);
            }
        }
        lemma_scan_escaped(
            s,
            j + w,
            line,
            col + w as nat,
            segs,
            acc.push(c),
            rest,
        );
        assert(acc.push(c) + rest =~= acc + l);
        if w == 2 {
            assert(s[j] == '\\');
            assert(s[j + 1] == e[1]);
            assert(escape_chars(s[j + 1]) =~= seq![c]);
            assert(acc + escape_chars(s[j + 1]) =~= acc.push(c));
        } else {
            assert(s[j] == c);
            if c == '#' {
                if rest.len() > 0 {
                    lemma_escape_lit_first(rest);
                    assert(s[j + 1] == er[0]);
                    assert(rest[0] != '{') by {
                        if rest[0] == '{' {
                            assert(l[0] == '#' && l[1] == '{');
                        }
                    }
                } else {
                    assert(s[j + 1] == '"');
                }
            }
        }
    }
}


/// A string written out is read back: a literal `l` without `#{` in it,
/// quoted and escaped as the formatter writes it, lexes (whatever follows
/// it) to one string token holding exactly `l`, and the token ends at the
/// closing quote.
pub proof fn lemma_written_string_reads_back(l: Seq<char>, rest: Seq<char>, line: nat, col: nat)
    requires
        !opens_interpolation(l),
    ensures
        ({
            let w = spec_render_string(seq![SpecStrSeg::Lit(l)]);
            string_step(w + rest, 0, line, col) matches Step::Emit(t, j, _, _) && t == SpecTok::Str(
                seq![SpecStrSeg::Lit(l)],
            ) && j == w.len()
        }),
{
    let w = spec_render_string(seq![SpecStrSeg::Lit(l)]);
    let e = escape_lit(l);
    assert(seq![SpecStrSeg::Lit(l)].drop_first() =~= Seq::<SpecStrSeg>::empty());
    assert(render_segs(seq![SpecStrSeg::Lit(l)]) == e + render_segs(Seq::<SpecStrSeg>::empty()));
    assert(render_segs(seq![SpecStrSeg::Lit(l)]) =~= e);
    let s = w + rest;
    assert(s.subrange(1, 1 + e.len() as int) =~= e);
    assert(s[1 + e.len() as int] == '"');
    lemma_scan_escaped(s, 1, line, col + 1, seq![], seq![], l);
    assert(Seq::<char>::empty() + l =~= l);
}


/// A word is written back as it was read: whichever keyword or name the
/// lexer makes of a word, the formatter writes that very word.
pub proof fn lemma_words_write_back(w: Seq<char>)
    ensures
        spec_render_token(word_tok(w)) == w,
{
    reveal_strlit("profile");
    reveal_strlit("check");
    reveal_strlit("const");
    reveal_strlit("assert");
    reveal_strlit("require");
    reveal_strlit("function");
    reveal_strlit("import");
    reveal_strlit("rule");
    reveal_strlit("on");
    reveal_strlit("true");
    reveal_strlit("false");
}

/// An operator or punctuation mark is written back as it was read: the
/// token the lexer makes of one character is written as that character,
/// and the token it makes of two characters as those two.
pub proof fn lemma_symbols_write_back(s: Seq<char>, i: int, c: char)
    ensures
        one_char_op(c) matches Some(t) ==> spec_render_token(t) == seq![c],
        (0 <= i && two_char_op(s, i) is Some) ==> spec_render_token(two_char_op(s, i)->0) == s.subrange(i, i + 2),
{
    reveal_strlit("{");
    reveal_strlit("}");
    reveal_strlit("(");
    reveal_strlit(")");
    reveal_strlit("[");
    reveal_strlit("]");
    reveal_strlit(",");
    reveal_strlit(":");
    reveal_strlit(".");
    reveal_strlit("|");
    reveal_strlit("=");
    reveal_strlit("<");
    reveal_strlit(">");
    reveal_strlit("+");
    reveal_strlit("-");
    reveal_strlit("*");
    reveal_strlit("/");
    reveal_strlit("!");
    reveal_strlit("==");
    reveal_strlit("!=");
    reveal_strlit("<=");
    reveal_strlit(">=");
    reveal_strlit("&&");
    reveal_strlit("||");
    reveal_strlit("::");
    if 0 <= i && two_char_op(s, i) is Some {
        assert(s.subrange(i, i + 2) =~= seq![s[i], s[i + 1]]);
    }
    if one_char_op(c) is Some {
        assert(spec_render_token(one_char_op(c)->0) =~= seq![c]);
    }
}

} // verus!
