use pdfl::doccmd::{html, markdown};
use pdfl::parser::parse;

const SRC: &str = r#"
profile "teste" {
  const MAX = 300
  check "TAC" tags: ["prepress"] {
    doc.pages.each { |page|
      assert page.tac <= MAX, "Página #{page.number} com TAC alto"
    }
    require !prepress::detect_hairlines(0.25)
  }
  check "Vazio" { }
}
"#;

#[test]
fn markdown_estrutura() {
    let md = markdown("teste.pdfl", &parse(SRC).unwrap());
    assert!(md.contains("# Documentation: teste.pdfl"));
    assert!(md.contains("**Profile:** teste"));
    assert!(md.contains("| `MAX` | `300` |"));
    assert!(md.contains("### TAC — tags: `prepress`"));
    assert!(md.contains("Página #{page.number} com TAC alto"), "{md}");
    assert!(md.contains("`!prepress::detect_hairlines(0.25)`"));
    assert!(md.contains("### Vazio"));
    assert!(md.contains("(no direct validations)"));
    assert!(!md.contains("pdfl fix"));
}

#[test]
fn html_estrutura() {
    let h = html("teste.pdfl", &parse(SRC).unwrap());
    assert!(h.contains("<h1>Documentation: teste.pdfl</h1>"));
    assert!(h.contains("<h3>TAC — tags: <code>prepress</code></h3>"));
    assert!(h.contains("<td><code>MAX</code></td>"));
}

#[test]
fn aviso_de_fix() {
    let md = markdown("n.pdfl", &parse("fix::add_page_numbers()").unwrap());
    assert!(md.contains("pdfl fix"), "{md}");
}

#[test]
fn markdown_in_full() {
    let src = "import \"base.pdfl\"\nfunction f(a, b) { a }\nrule \"A4\" { require page.width > 0 }\n";
    let md = markdown("s.pdfl", &parse(src).unwrap());
    assert_eq!(
        md,
        "# Documentation: s.pdfl\n\n\
         ## Imports\n\n- `base.pdfl`\n\n\
         ## Functions\n\n- `f(a, b)`\n\n\
         ## Checks (1)\n\n\
         ### A4 — rule (all pages)\n\n- `page.width > 0`\n\n"
    );
}

#[test]
fn html_lists_and_notes() {
    let src = "check \"c\" { fix::rotate_page(90)\n assert 1 < 2, \"x & y\" }\n";
    let h = html("n<1>.pdfl", &parse(src).unwrap());
    assert!(h.contains("<title>Documentation — n<1>.pdfl</title>"), "{h}");
    assert!(h.contains("<blockquote>This script contains <code>fix::</code> operations"), "{h}");
    assert!(h.contains("<ul>\n<li>x &amp; y *(condition: <code>1 &lt; 2</code>)*</li>\n</ul>\n"), "{h}");
    assert!(h.ends_with("</body>\n</html>\n"));
}
