use pdfl::lexer::{lexes_within_i64, tokenize, tokenize_with_comments, Quantity, StrSeg, Tok, Unit};

fn toks(src: &str) -> Vec<Tok> {
    tokenize(src).unwrap().into_iter().map(|t| t.tok).collect()
}

#[test]
fn basics() {
    assert_eq!(
        toks("const X = 42"),
        vec![Tok::Const, Tok::Ident("X".into()), Tok::Eq, Tok::Int(42), Tok::Eof]
    );
}

#[test]
fn operators_and_float() {
    assert_eq!(
        toks("1.5 >= 2 && !ok"),
        vec![
            Tok::Float("1.5".into()),
            Tok::GtEq,
            Tok::Int(2),
            Tok::AndAnd,
            Tok::Bang,
            Tok::Ident("ok".into()),
            Tok::Eof
        ]
    );
}

#[test]
fn comment_and_newline() {
    assert_eq!(
        toks("a // comentário\nb"),
        vec![Tok::Ident("a".into()), Tok::Newline, Tok::Ident("b".into()), Tok::Eof]
    );
}

#[test]
fn simple_string() {
    assert_eq!(toks(r#""oi""#), vec![Tok::Str(vec![StrSeg::Lit("oi".into())]), Tok::Eof]);
}

#[test]
fn interpolated_string() {
    assert_eq!(
        toks(r#""Fonte #{font.name} ausente""#),
        vec![
            Tok::Str(vec![
                StrSeg::Lit("Fonte ".into()),
                StrSeg::Interp("font.name".into()),
                StrSeg::Lit(" ausente".into()),
            ]),
            Tok::Eof
        ]
    );
}

#[test]
fn keywords_and_block() {
    assert_eq!(
        toks("check \"x\" { |p| }"),
        vec![
            Tok::Check,
            Tok::Str(vec![StrSeg::Lit("x".into())]),
            Tok::LBrace,
            Tok::Pipe,
            Tok::Ident("p".into()),
            Tok::Pipe,
            Tok::RBrace,
            Tok::Eof
        ]
    );
}

#[test]
fn unterminated_string() {
    assert!(tokenize("\"abc").is_err());
}

#[test]
fn units_keep_their_digits_and_text() {
    assert_eq!(
        toks("3mm 2.5cm 300%"),
        vec![
            Tok::UnitNum(Quantity { number: "3".into(), unit: Unit::Mm }, "3mm".into()),
            Tok::UnitNum(Quantity { number: "2.5".into(), unit: Unit::Cm }, "2.5cm".into()),
            Tok::UnitNum(Quantity { number: "300".into(), unit: Unit::Percent }, "300%".into()),
            Tok::Eof
        ]
    );
}

#[test]
fn unknown_unit_is_a_lexical_error() {
    let e = tokenize("require 3kg > 1").unwrap_err();
    assert_eq!(e.message, "unknown unit: 'kg' (use pt, mm, cm, in or %)");
    assert_eq!((e.line, e.col), (1, 12));
}

#[test]
fn positions_are_line_and_column_of_the_token_start() {
    let t = tokenize("a\n  bb c").unwrap();
    let pos: Vec<(usize, usize)> = t.iter().map(|t| (t.line, t.col)).collect();
    assert_eq!(pos, vec![(1, 1), (1, 2), (2, 3), (2, 6), (2, 7)]);
}

#[test]
fn escapes_and_regex_backslashes() {
    assert_eq!(
        toks(r#""a\"b\n\d\#{x}""#),
        vec![Tok::Str(vec![StrSeg::Lit("a\"b\n\\d#{x}".into())]), Tok::Eof]
    );
}

#[test]
fn nested_braces_in_interpolation() {
    assert_eq!(
        toks(r##""#{ {a} }""##),
        vec![Tok::Str(vec![StrSeg::Interp(" {a} ".into())]), Tok::Eof]
    );
}

#[test]
fn unexpected_character_is_quoted() {
    let e = tokenize("a @ b").unwrap_err();
    assert_eq!(e.message, "unexpected character: '@'");
    assert_eq!((e.line, e.col), (1, 3));
    assert_eq!(e.to_string(), "lexical error at line 1, column 3: unexpected character: '@'");
}

#[test]
fn comments_are_kept_only_for_the_formatter() {
    let t: Vec<Tok> = tokenize_with_comments("x // note  \n").unwrap().into_iter().map(|t| t.tok).collect();
    assert_eq!(t, vec![Tok::Ident("x".into()), Tok::Comment("note".into()), Tok::Newline, Tok::Eof]);
}

#[test]
fn an_integer_beyond_i64_is_detected() {
    assert!(!lexes_within_i64("x = 99999999999999999999", false));
    assert!(lexes_within_i64("x = 9223372036854775807", false));
    assert_eq!(toks("9223372036854775807"), vec![Tok::Int(i64::MAX), Tok::Eof]);
}

#[test]
fn interpolation_must_close_on_its_line() {
    let e = tokenize("\"#{a\nb}\"").unwrap_err();
    assert_eq!(e.message, "unterminated #{...} interpolation");
}

#[test]
fn comments_are_the_only_tokens_that_differ() {
    let src = "// top\ncheck \"a\" { // inside\n  assert x > 1 // end\n}\n";
    let plain: Vec<(Tok, usize, usize)> =
        tokenize(src).unwrap().into_iter().map(|t| (t.tok, t.line, t.col)).collect();
    let with: Vec<(Tok, usize, usize)> = tokenize_with_comments(src)
        .unwrap()
        .into_iter()
        .filter(|t| !matches!(t.tok, Tok::Comment(_)))
        .map(|t| (t.tok, t.line, t.col))
        .collect();
    assert_eq!(plain, with);
    let n = tokenize_with_comments(src).unwrap().iter().filter(|t| matches!(t.tok, Tok::Comment(_))).count();
    assert_eq!(n, 3);
}
