use pdfl::fmt::format_source;

#[test]
fn indents_and_spaces() {
    let src = "profile \"x\"{\ncheck \"a\"   {\nrequire doc.page_count>0\n}\n}\n";
    let want = "profile \"x\" {\n  check \"a\" {\n    require doc.page_count > 0\n  }\n}\n";
    assert_eq!(format_source(src).unwrap(), want);
}

#[test]
fn preserves_comments() {
    let src = "// cabeçalho\ncheck \"a\" {\n  require doc.title != \"\" // trailing\n}\n";
    let got = format_source(src).unwrap();
    assert!(got.starts_with("// cabeçalho\n"), "{got}");
    assert!(got.contains("!= \"\" // trailing"), "{got}");
}

#[test]
fn blocks_and_interpolation() {
    let src = "doc.fonts.each{|font|\nassert font.is_embedded,\"Fonte #{ font.name } ruim\"\n}\n";
    let got = format_source(src).unwrap();
    assert_eq!(
        got,
        "doc.fonts.each { |font|\n  assert font.is_embedded, \"Fonte #{font.name} ruim\"\n}\n"
    );
}

#[test]
fn collapses_blank_lines() {
    let src = "const A = 1\n\n\n\nconst B = A\n";
    assert_eq!(format_source(src).unwrap(), "const A = 1\n\nconst B = A\n");
}

#[test]
fn preserves_units() {
    let src = "const SANGRIA = 3mm\nconst TAC = 300%\nrequire x > 2.5cm\n";
    assert_eq!(format_source(src).unwrap(), src);
}

#[test]
fn idempotent() {
    let src = r#"
// exemplo
profile "p" {
  const MAX = 300
  check "TAC" tags: ["prepress"] {
    doc.pages.each { |page|
      assert prepress::calculate_tac(page) <= MAX, "TAC #{page.tac} alto"
    }
    require !prepress::detect_hairlines(0.25)
    x = [1, 2.5, "três"]
    require x.length == 3 && (1 + 2) * 3 == 9
  }
}
"#;
    let once = format_source(src).unwrap();
    let twice = format_source(&once).unwrap();
    assert_eq!(once, twice, "formatador não é idempotente:\n{once}");
}

#[test]
fn decimals_are_written_in_their_shortest_form() {
    assert_eq!(format_source("x = 007.50\n").unwrap(), "x = 7.5\n");
    assert_eq!(format_source("x = 3.0 + 0.25\n").unwrap(), "x = 3.0 + 0.25\n");
}

#[test]
fn a_lexical_error_is_returned() {
    assert!(format_source("x = \"abc\n").is_err());
}

#[test]
fn leading_closers_dedent_and_never_go_negative() {
    assert_eq!(format_source("}\n{\nx\n} y\n").unwrap(), "}\n{\n  x\n} y\n");
}

#[test]
fn formatting_changes_only_spaces_and_line_breaks() {
    let src = "profile \"p\"{\n\n\n  check \"a\"   tags:[\"x\",\"y\"]{\n assert  x>1,\"too small\" // keep me\nrequire doc.pages.all{|p|p.width>=10}\n}}\n";
    let out = format_source(src).unwrap();
    let strip = |s: &str| s.chars().filter(|c| *c != ' ' && *c != '\n').collect::<String>();
    assert_eq!(strip(&out), strip(src));
    assert!(out.contains("// keep me"));
}
