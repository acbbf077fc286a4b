use pdfl::escape::{csv_field, hex, html_escape, pdf_sanitize, wrap_text, xml_escape};
use pdfl::report::{describe, fingerprint, Diagnostic, Report, Severity};
use sha2::Digest;

fn diag(sev: Severity) -> Diagnostic {
    Diagnostic {
        id: "PDFL-001".into(),
        severity: sev,
        check_name: "c".into(),
        message: "m".into(),
        line: None,
    }
}

#[test]
fn csv_escapes_fields() {
    let mut d = diag(Severity::Error);
    d.message = "message with \"quotes\", comma\nand a newline".into();
    let r = Report::new("s.pdfl".into(), "f.pdf".into(), None, 1, vec![d]);
    let csv = r.to_csv();
    assert!(csv.starts_with("id,severity,check,message,line,script,file,status\n"));
    assert!(csv.contains("\"message with \"\"quotes\"\", comma\nand a newline\""));
}

#[test]
fn csv_row_in_full() {
    let mut d = diag(Severity::Warning);
    d.line = Some(12);
    let r = Report::new("s.pdfl".into(), "f.pdf".into(), None, 1, vec![d]);
    assert_eq!(
        r.to_csv(),
        "id,severity,check,message,line,script,file,status\nPDFL-001,warning,c,m,12,s.pdfl,f.pdf,PASS\n"
    );
}

#[test]
fn junit_counts_the_checks_that_passed() {
    let mut d = diag(Severity::Error);
    d.check_name = "Ink".into();
    d.message = "TAC above 300% & rising".into();
    let mut r = Report::new("p.pdfl".into(), "f.pdf".into(), None, 1, vec![d]);
    r.checks_run = vec!["Ink".into(), "Fonts".into(), "Bleed".into()];
    let xml = r.to_junit();
    assert!(xml.contains("tests=\"3\" failures=\"1\""), "{xml}");
    assert!(xml.contains("<testcase name=\"Fonts\" classname=\"f.pdf\"/>"), "{xml}");
    assert!(xml.contains("message=\"TAC above 300% &amp; rising\" type=\"error\""), "{xml}");
}

#[test]
fn junit_keeps_findings_that_have_no_check() {
    let r = Report::new("p.pdfl".into(), "f.pdf".into(), None, 1, vec![diag(Severity::Error)]);
    let xml = r.to_junit();
    assert!(xml.contains("tests=\"1\" failures=\"1\""), "{xml}");
    assert!(xml.contains("<testcase name=\"c\""), "{xml}");
}

#[test]
fn junit_does_not_fail_on_info() {
    let mut r = Report::new("p.pdfl".into(), "f.pdf".into(), None, 1, vec![diag(Severity::Info)]);
    r.checks_run = vec!["c".into()];
    let xml = r.to_junit();
    assert!(xml.contains("failures=\"0\""), "{xml}");
    assert!(xml.contains("<system-out>"), "{xml}");
}

#[test]
fn junit_document_in_full() {
    let mut r = Report::new("p.pdfl".into(), "f.pdf".into(), None, 1, vec![diag(Severity::Warning)]);
    r.checks_run = vec!["ok".into()];
    assert_eq!(
        r.to_junit(),
        "<?xml version=\"1.0\" encoding=\"UTF-8\"?>\n\
         <testsuites name=\"pdfl\" tests=\"2\" failures=\"1\">\n\
         \x20 <testsuite name=\"p.pdfl\" tests=\"2\" failures=\"1\" errors=\"0\" skipped=\"0\">\n\
         \x20   <testcase name=\"ok\" classname=\"f.pdf\"/>\n\
         \x20   <testcase name=\"c\" classname=\"f.pdf\">\n\
         \x20     <failure message=\"m\" type=\"warning\">\n\
         PDFL-001 [warning] m\n\
         \x20     </failure>\n\
         \x20   </testcase>\n\
         \x20 </testsuite>\n\
         </testsuites>\n"
    );
}

#[test]
fn exit_codes() {
    let pass = Report::new("s".into(), "f".into(), None, 1, vec![]);
    assert_eq!(pass.status, "PASS");
    assert_eq!(pass.exit_code(false), 0);

    let warn = Report::new("s".into(), "f".into(), None, 1, vec![diag(Severity::Warning)]);
    assert_eq!(warn.status, "PASS");
    assert_eq!(warn.exit_code(false), 1);
    assert_eq!(warn.exit_code(true), 2);

    let err = Report::new("s".into(), "f".into(), None, 1, vec![diag(Severity::Error)]);
    assert_eq!(err.status, "FAIL");
    assert_eq!(err.exit_code(false), 2);
}

#[test]
fn counts_by_severity() {
    let r = Report::new(
        "s".into(),
        "f".into(),
        Some("p".into()),
        3,
        vec![diag(Severity::Error), diag(Severity::Info), diag(Severity::Error), diag(Severity::Warning)],
    );
    assert_eq!((r.error_count, r.warning_count, r.info_count), (2, 1, 1));
    assert_eq!(r.schema_version, 1);
}

#[test]
fn fingerprint_is_stable_and_sensitive() {
    let a = fingerprint("Ink", "TAC 324%", 1);
    assert!(a.starts_with("PDFL-") && a.len() == 13, "{a}");
    assert_eq!(a, fingerprint("Ink", "TAC 324%", 1));
    assert_ne!(a, fingerprint("Ink", "TAC 324%", 2));
    assert_ne!(a, fingerprint("Ink", "TAC 325%", 1));
    // The separator keeps ("ab", "c") apart from ("a", "bc").
    assert_ne!(fingerprint("ab", "c", 1), fingerprint("a", "bc", 1));
}

#[test]
fn fingerprint_known_value() {
    // The identifier is the start of the SHA-256 of name, separator,
    // message, separator and occurrence.
    let digest = sha2::Sha256::digest(b"Ink\x1fTAC above 300%\x1f12");
    let want = format!("PDFL-{}", &hex(&digest)[..8]);
    assert_eq!(fingerprint("Ink", "TAC above 300%", 12), want);
}

#[test]
fn describe_one_line() {
    let mut d = diag(Severity::Info);
    assert_eq!(describe(&d), "PDFL-001 [info] m");
    d.line = Some(7);
    assert_eq!(describe(&d), "PDFL-001 [info] (line 7) m");
}

#[test]
fn escapes() {
    assert_eq!(xml_escape("a<b>&\"c'"), "a&lt;b&gt;&amp;&quot;c&apos;");
    assert_eq!(html_escape("size <6pt> & co"), "size &lt;6pt&gt; &amp; co");
    assert_eq!(html_escape("it's"), "it's");
    assert_eq!(csv_field("plain"), "plain");
    assert_eq!(csv_field("a,b"), "\"a,b\"");
    assert_eq!(csv_field("say \"hi\""), "\"say \"\"hi\"\"\"");
    assert_eq!(hex(&[0x00, 0x0f, 0xab]), "000fab");
}

#[test]
fn pdf_folds_what_it_cannot_encode() {
    assert_eq!(pdf_sanitize("a → b"), "a -> b");
    assert_eq!(pdf_sanitize("em—dash"), "em-dash");
    assert_eq!(pdf_sanitize("and so…"), "and so...");
    assert_eq!(pdf_sanitize("\u{201C}quoted\u{201D}"), "\"quoted\"");
    assert_eq!(pdf_sanitize("it\u{2019}s"), "it's");
    assert_eq!(pdf_sanitize("reimpressão"), "reimpressão");
    assert_eq!(pdf_sanitize("見本 → \u{201C}proof\u{201D}"), "?? -> \"proof\"");
}

#[test]
fn wrapping() {
    assert_eq!(wrap_text("", 10), vec![String::new()]);
    assert_eq!(wrap_text("one two three four", 9), vec!["one two", "three", "four"]);
    assert_eq!(wrap_text("  a   b  ", 80), vec!["a b"]);
    assert_eq!(wrap_text("short averyveryverylongword x", 5), vec!["short", "averyveryverylongword", "x"]);
}

#[test]
fn html_escapes_and_summarizes() {
    let mut d = diag(Severity::Warning);
    d.message = "size <6pt> & co".into();
    let r = Report::new("s.pdfl".into(), "f.pdf".into(), Some("perfil-x".into()), 3, vec![d]);
    let html = r.to_html();
    assert!(html.contains("size &lt;6pt&gt; &amp; co"));
    assert!(html.contains("perfil-x"));
    assert!(html.contains("PASS"));
    assert!(html.contains("<strong>1</strong> warning(s)"));
}

#[test]
fn html_rows_fixes_and_the_empty_table() {
    let mut d = diag(Severity::Error);
    d.line = Some(4);
    let mut r = Report::new("s.pdfl".into(), "f.pdf".into(), None, -1, vec![d]);
    r.fixes = vec!["rotate <1>".into()];
    r.similarity = Some("97.5".into());
    let html = r.to_html();
    assert!(html.contains("<tr><td>PDFL-001</td><td><span style=\"color:#c0392b;font-weight:600\">error</span></td><td>c</td><td>m</td><td>4</td></tr>\n"), "{html}");
    assert!(html.contains("<h2>Applied fixes</h2>\n<ul><li>rotate &lt;1&gt;</li>\n</ul>\n"), "{html}");
    assert!(html.contains("<p><strong>Similarity:</strong> 97.5%</p>"), "{html}");
    assert!(html.contains("background: #c0392b; }"), "{html}");
    assert!(html.contains("<strong>-1</strong> page(s) analyzed"), "{html}");
    let empty = Report::new("s".into(), "f".into(), None, 0, vec![]).to_html();
    assert!(empty.contains("No problems found</td></tr></tbody>"), "{empty}");
    assert!(empty.starts_with("<!DOCTYPE html>\n<html lang=\"en\">"));
}

#[test]
fn sarif_rules_are_the_distinct_checks_in_first_seen_order() {
    let names = ["Ink", "Fonts", "Ink", "Boxes", "Fonts"];
    let ds = names
        .iter()
        .map(|n| {
            let mut d = diag(Severity::Error);
            d.check_name = n.to_string();
            d
        })
        .collect();
    let r = Report::new("s.pdfl".into(), "f.pdf".into(), None, 1, ds);
    assert_eq!(r.rule_ids(), vec!["Ink", "Fonts", "Boxes"]);
}

#[test]
fn sarif_levels_map_info_to_note() {
    assert_eq!(Severity::Error.sarif_level(), "error");
    assert_eq!(Severity::Warning.sarif_level(), "warning");
    assert_eq!(Severity::Info.sarif_level(), "note");
}

#[test]
fn the_csv_report_reads_back_field_by_field() {
    let mut d = diag(Severity::Warning);
    d.message = "a, \"quoted\"\nsecond line".into();
    d.line = Some(7);
    let r = Report::new("s.pdfl".into(), "f.pdf".into(), None, 1, vec![d, diag(Severity::Info)]);
    let rows = pdfl::datans::parse_csv(&r.to_csv());
    assert_eq!(
        rows,
        vec![
            vec!["id", "severity", "check", "message", "line", "script", "file", "status"],
            vec!["PDFL-001", "warning", "c", "a, \"quoted\"\nsecond line", "7", "s.pdfl", "f.pdf", "PASS"],
            vec!["PDFL-001", "info", "c", "m", "", "s.pdfl", "f.pdf", "PASS"],
        ]
    );
}

#[test]
fn csv_fields_read_back_through_the_parser() {
    let rows = vec![vec!["plain", "", "with,comma"], vec!["\"q\"", "line\r\nbreak"]];
    let text: String = rows
        .iter()
        .map(|r| r.iter().map(|f| csv_field(f)).collect::<Vec<_>>().join(",") + "\n")
        .collect();
    assert_eq!(pdfl::datans::parse_csv(&text), rows);
}
