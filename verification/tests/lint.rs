use pdfl::lint::lint;
use pdfl::parser::parse;

fn lint_src(src: &str) -> Vec<String> {
    lint(&parse(src).unwrap())
}

#[test]
fn unused_variable() {
    let w = lint_src("const LIMITE = 300\ncheck \"a\" { require doc.page_count > 0 }");
    assert!(w.iter().any(|m| m.contains("'LIMITE' declared and never used")), "{w:?}");
}

#[test]
fn used_variable_does_not_warn() {
    let w = lint_src("const L = 300\ncheck \"a\" { require doc.page_count < L }");
    assert!(w.is_empty(), "{w:?}");
}

#[test]
fn duplicate_and_empty_check() {
    let w = lint_src("check \"x\" { }\ncheck \"x\" { require doc.page_count > 0 }");
    assert!(w.iter().any(|m| m.contains("\"x\" declared 2 times")), "{w:?}");
    assert!(w.iter().any(|m| m.contains("\"x\" is empty")), "{w:?}");
}

#[test]
fn unknown_namespace_and_fix() {
    let w = lint_src("check \"a\" {\n dados::consulta()\n fix::rotate_page(90)\n}");
    assert!(w.iter().any(|m| m.contains("unknown namespace: dados::")), "{w:?}");
    assert!(w.iter().any(|m| m.contains("pdfl fix")), "{w:?}");
}

#[test]
fn assert_outside_check() {
    let w = lint_src("require doc.page_count > 0");
    assert!(w.iter().any(|m| m.contains("outside any check")), "{w:?}");
}

#[test]
fn unused_block_parameter() {
    let w = lint_src("check \"a\" { doc.pages.each { |page| require doc.title != \"\" } }");
    assert!(w.iter().any(|m| m.contains("'page' never used")), "{w:?}");
    let w2 = lint_src("check \"a\" { doc.pages.each { |_page| require doc.title != \"\" } }");
    assert!(w2.is_empty(), "{w2:?}");
}

#[test]
fn warnings_come_sorted_and_whole() {
    let w = lint_src(
        "function f(a, _b) { 1 }\nconst z = 1\ncheck \"c\" { }\ncheck \"c\" { }\nrequire 1 > 0\n",
    );
    assert_eq!(
        w,
        vec![
            "assert/require outside any check (line 5): the diagnostic has no check name",
            "check \"c\" declared 2 times",
            "check \"c\" is empty",
            "check \"c\" is empty",
            "function 'f' declared and never used",
            "parameter 'a' of function 'f' never used",
            "variable 'z' declared and never used",
        ]
    );
}

#[test]
fn a_called_function_and_the_rule_page_are_used() {
    let w = lint_src("function _h() { 1 }\nfunction g() { 2 }\nrule \"r\" { require g() > 0 }\n");
    assert!(w.is_empty(), "{w:?}");
}

#[test]
fn fix_is_reported_once_per_walk() {
    let w = lint_src("check \"a\" { fix::rotate_page(90)\n fix::delete_page(2) }");
    assert_eq!(w.iter().filter(|m| m.contains("pdfl fix")).count(), 1, "{w:?}");
}
