use pdfl::ast::{Expr, StrPart, Stmt};
use pdfl::parser::{parse, parses_within_i64};
use pdfl::report::Severity;

#[test]
fn const_and_assign() {
    let prog = parse("const X = 1 + 2\ny = X * 3").unwrap();
    assert_eq!(prog.len(), 2);
    assert!(matches!(&prog[0], Stmt::Const { name, .. } if name == "X"));
    assert!(matches!(&prog[1], Stmt::Assign { name, .. } if name == "y"));
}

#[test]
fn check_with_tags_and_require() {
    let src = r#"
check "Fontes" tags: ["fonts", "basico"] {
  require doc.page_count > 0
}
"#;
    let prog = parse(src).unwrap();
    let Stmt::Check { name, tags, body, .. } = &prog[0] else { panic!("esperava check") };
    assert_eq!(name, "Fontes");
    assert_eq!(tags, &["fonts".to_string(), "basico".to_string()]);
    let Stmt::Assert { message, source, .. } = &body[0] else { panic!("esperava assert") };
    assert!(message.is_none());
    assert_eq!(source, "doc.page_count > 0");
}

#[test]
fn assert_with_interpolated_message() {
    let src = r#"assert font.is_embedded, "Font #{font.name} is not embedded""#;
    let prog = parse(src).unwrap();
    let Stmt::Assert { message: Some(Expr::Str(parts)), .. } = &prog[0] else {
        panic!("esperava assert com mensagem string")
    };
    assert_eq!(parts.len(), 3);
    assert!(matches!(&parts[1], StrPart::Interp(Expr::Member { .. })));
}

#[test]
fn block_with_parameters() {
    let src = "doc.pages.each { |page|\n  require page.width > 0\n}";
    let prog = parse(src).unwrap();
    let Stmt::Expr(Expr::Call { name, block: Some(b), .. }) = &prog[0] else {
        panic!("esperava chamada com bloco")
    };
    assert_eq!(name, "each");
    assert_eq!(b.params, vec!["page".to_string()]);
    assert_eq!(b.body.len(), 1);
}

#[test]
fn named_args() {
    let prog = parse("visual.detect_low_resolution(dpi: 300)").unwrap();
    let Stmt::Expr(Expr::Call { args, .. }) = &prog[0] else { panic!() };
    assert_eq!(args[0].name.as_deref(), Some("dpi"));
}

#[test]
fn full_profile() {
    let src = r#"
profile "offset" {
  const MIN = 1
  check "Estrutura" {
    require doc.page_count >= MIN
    assert doc.title != "", "PDF has no title"
  }
}
"#;
    let prog = parse(src).unwrap();
    let Stmt::Profile { name, body } = &prog[0] else { panic!() };
    assert_eq!(name, "offset");
    assert_eq!(body.len(), 2);
}

#[test]
fn assert_message_on_new_line() {
    let src = "assert x >= 1,\n  \"mensagem\"";
    assert!(parse(src).is_ok());
}

#[test]
fn syntax_error_has_line() {
    let err = parse("check {\n}").unwrap_err();
    assert_eq!(err.line, 1);
}

#[test]
fn namespace_call() {
    let prog = parse("require text::count_words() > 10").unwrap();
    let Stmt::Assert { source, .. } = &prog[0] else { panic!() };
    assert_eq!(source, "text::count_words() > 10");

    // it works without parentheses too
    let prog = parse("text::extract_all").unwrap();
    let Stmt::Expr(Expr::Call { name, args, .. }) = &prog[0] else { panic!() };
    assert_eq!(name, "text::extract_all");
    assert!(args.is_empty());
}

#[test]
fn precedence() {
    let prog = parse("assert 1 + 2 * 3 == 7").unwrap();
    let Stmt::Assert { source, .. } = &prog[0] else { panic!() };
    assert_eq!(source, "1 + 2 * 3 == 7");
}

#[test]
fn severity_in_any_order_with_tags() {
    let src = "check \"Note\" tags: [\"x\"] severity: info {\n}\ncheck \"Other\" severity: warning tags: [\"y\"] {\n}\ncheck \"Plain\" {\n}";
    let prog = parse(src).unwrap();
    let sev: Vec<Severity> = prog
        .iter()
        .map(|s| match s {
            Stmt::Check { severity, .. } => *severity,
            _ => panic!(),
        })
        .collect();
    assert_eq!(sev, vec![Severity::Info, Severity::Warning, Severity::Error]);
}

#[test]
fn unknown_severity_is_a_syntax_error() {
    let e = parse("check \"x\" severity: loud { }").unwrap_err();
    assert_eq!(e.message, "expected severity error, warning or info, found loud");
}

#[test]
fn rule_selection_with_a_block_needs_parentheses() {
    let e = parse("rule \"x\" on doc.title {\n  require page.width > 0\n}").unwrap_err();
    assert!(e.message.contains("wrap it in parentheses"), "{}", e.message);
}

#[test]
fn errors_name_the_token_found() {
    let e = parse("x = )").unwrap_err();
    assert_eq!(e.message, "unexpected expression: RParen");
    assert_eq!((e.line, e.col), (1, 5));
    assert_eq!(e.to_string(), "syntax error at line 1, column 5: unexpected expression: RParen");
    let e = parse("a b").unwrap_err();
    assert_eq!(e.message, "expected end of line after statement, found b");
}

#[test]
fn source_keeps_units_and_values() {
    let prog = parse("require x > 3mm && y == 2.50 && z < 300%").unwrap();
    let Stmt::Assert { source, line, .. } = &prog[0] else { panic!() };
    assert_eq!(source, "x > 3mm && y == 2.5 && z < 300");
    assert_eq!(*line, 1);
}

#[test]
fn interpolation_errors_are_reported_at_the_string() {
    let e = parse("x = \"a #{1 +} b\"").unwrap_err();
    assert_eq!(e.message, "unexpected expression: end of file");
    let e = parse("x = \"a #{@} b\"").unwrap_err();
    assert_eq!(e.message, "in interpolation: unexpected character: '@'");
    assert_eq!((e.line, e.col), (1, 5));
}

#[test]
fn functions_rules_imports_and_lists() {
    let src = "import \"lib.pdfl\"\nfunction dbl(a, b) { a * 2 }\nrule \"r\" on (doc.pages) { require page.width > 0 }\nx = [1, \"s\", [2]]\ny = -x.len(a: 1) { |p, q| p }";
    let prog = parse(src).unwrap();
    assert_eq!(prog.len(), 5);
    assert!(matches!(&prog[0], Stmt::Import { path } if path == "lib.pdfl"));
    assert!(matches!(&prog[1], Stmt::Function { params, .. } if params.len() == 2));
    assert!(matches!(&prog[2], Stmt::Rule { pages: Some(_), .. }));
    let Stmt::Assign { value, .. } = &prog[4] else { panic!() };
    assert_eq!(value.to_source(), "-x.len(a: 1) { ... }");
}

#[test]
fn an_integer_beyond_i64_inside_an_interpolation_is_detected() {
    assert!(!parses_within_i64("x = \"#{99999999999999999999}\""));
    assert!(parses_within_i64("x = \"#{1}\""));
}
