use pdfl::cli::{parse_page_range, parse_vars, Occurrences};
use pdfl::structns::{format_pdf_date, push_unique};
use pdfl::testcmd::expected_path;
use pdfl::watch::{file_gate, next_wait, timeout_report, wildcard_match, Gate};

#[test]
fn page_ranges() {
    assert_eq!(parse_page_range("1-4").unwrap(), vec![1, 2, 3, 4]);
    assert_eq!(parse_page_range("3").unwrap(), vec![3]);
    assert_eq!(parse_page_range("1,3,7-9").unwrap(), vec![1, 3, 7, 8, 9]);
    assert_eq!(parse_page_range("1-3,2-4").unwrap(), vec![1, 2, 3, 4]);
    assert_eq!(parse_page_range(" 2 , 1 ").unwrap(), vec![1, 2]);
}

#[test]
fn a_bad_page_range_names_the_fragment() {
    assert_eq!(parse_page_range("1-x").unwrap_err(), "1-x");
    assert_eq!(parse_page_range("4-2").unwrap_err(), "4-2");
    assert_eq!(parse_page_range("0").unwrap_err(), "0");
    assert_eq!(parse_page_range("abc").unwrap_err(), "abc");
}

#[test]
fn page_range_details() {
    assert_eq!(parse_page_range("").unwrap(), Vec::<i64>::new());
    assert_eq!(parse_page_range(",, 5 ,").unwrap(), vec![5]);
    assert_eq!(parse_page_range("+3").unwrap(), vec![3]);
    assert_eq!(parse_page_range("9, 2 - 3, 1").unwrap(), vec![1, 2, 3, 9]);
    assert_eq!(parse_page_range("2,-1").unwrap_err(), "-1");
    assert_eq!(parse_page_range("99999999999999999999").unwrap_err(), "99999999999999999999");
}

#[test]
fn vars_split_on_the_first_equals() {
    let raw = vec!["client=Acme".to_string(), "expr=a=b".to_string(), "empty=".to_string()];
    let vars = parse_vars(&raw).unwrap();
    assert_eq!(
        vars,
        vec![
            ("client".to_string(), "Acme".to_string()),
            ("expr".to_string(), "a=b".to_string()),
            ("empty".to_string(), String::new()),
        ]
    );
    assert_eq!(parse_vars(&vec!["ok=1".to_string(), "=x".to_string()]).unwrap_err(), "=x");
    assert_eq!(parse_vars(&vec!["novalue".to_string()]).unwrap_err(), "novalue");
}

#[test]
fn occurrences_count_each_message() {
    let mut seen = Occurrences::new();
    assert_eq!(seen.bump("a"), 1);
    assert_eq!(seen.bump("b"), 1);
    assert_eq!(seen.bump("a"), 2);
    assert_eq!(seen.bump("a"), 3);
    assert_eq!(seen.bump("b"), 2);
}

#[test]
fn pdf_dates() {
    assert_eq!(format_pdf_date("D:20260802173622-03'00'"), "2026-08-02 17:36:22");
    assert_eq!(format_pdf_date("D:20260802"), "2026-08-02 00:00:00");
    assert_eq!(format_pdf_date(""), "");
    assert_eq!(format_pdf_date("texto qualquer"), "texto qualquer");
}

#[test]
fn pdf_dates_without_prefix_or_with_a_partial_time() {
    assert_eq!(format_pdf_date("2026080217"), "2026-08-02 17:00:00");
    assert_eq!(format_pdf_date("D:2026080217x5"), "2026-08-02 17:00:00");
}

#[test]
fn unique_list() {
    let mut v = vec!["a".to_string()];
    push_unique(&mut v, "b".to_string());
    push_unique(&mut v, "a".to_string());
    assert_eq!(v, vec!["a", "b"]);
}

#[test]
fn the_expected_file_next_to_the_pdf() {
    assert_eq!(expected_path("cases/invoice.pdf"), "cases/invoice.expected.json");
}

#[test]
fn wildcards() {
    assert!(wildcard_match("*.pdf", "file.pdf"));
    assert!(!wildcard_match("*.pdf", "file.txt"));
    assert!(wildcard_match("prova_*.pdf", "prova_01.pdf"));
    assert!(!wildcard_match("prova_*.pdf", "final_01.pdf"));
    assert!(wildcard_match("*relatorio*", "meu_relatorio_final.txt"));
    assert!(wildcard_match("exato.pdf", "exato.pdf"));
    assert!(!wildcard_match("exato.pdf", "outro.pdf"));
}

#[test]
fn wildcard_middle_pieces_in_order() {
    assert!(wildcard_match("a*b*c", "a-b-c"));
    assert!(!wildcard_match("a*c*b", "a-b-c"));
    assert!(wildcard_match("*", ""));
    assert!(!wildcard_match("ab*ba", "aba"));
}

#[test]
fn the_timeout_report_is_a_rejection_naming_the_deadline() {
    let report = timeout_report("p.pdfl".to_string(), "huge.pdf".to_string(), 120);
    assert_eq!(report.status, "FAIL");
    assert_eq!(report.error_count, 1);
    assert_eq!(report.diagnostics[0].check_name, "timeout");
    assert!(report.diagnostics[0].message.contains("120s"), "{}", report.diagnostics[0].message);
    assert_eq!(report.exit_code(false), 2);
}

#[test]
fn the_timeout_message_names_the_seconds() {
    let report = timeout_report("p.pdfl".to_string(), "dir/huge.pdf".to_string(), 7);
    assert_eq!(report.diagnostics[0].message, "analysis did not finish within 7s and was killed");
    assert_eq!(report.input_file, "dir/huge.pdf");
    assert_eq!(report.script_name, "p.pdfl");
    assert!(report.diagnostics[0].id.starts_with("PDFL-"));
    assert_eq!(report.diagnostics[0].id.len(), 13);
}

#[test]
fn the_watch_gate_filters_then_waits_for_the_file_to_settle() {
    assert_eq!(file_gate("a.txt", "*.pdf", None, false, false, 5_000_000_000, 1000), Gate::Skip);
    assert_eq!(file_gate("draft_a.pdf", "*.pdf", Some("draft_*"), false, false, 5_000_000_000, 1000), Gate::Skip);
    assert_eq!(file_gate("a.pdf", "*.pdf", Some("draft_*"), true, false, 5_000_000_000, 1000), Gate::Skip);
    assert_eq!(
        file_gate("a.pdf", "*.pdf", None, false, false, 300_000_000, 1000),
        Gate::Settling { remaining_ns: 700_000_000 }
    );
    assert_eq!(file_gate("a.pdf", "*.pdf", None, false, true, 300_000_000, 1000), Gate::Ready);
    assert_eq!(file_gate("a.pdf", "*.pdf", None, false, false, 1_000_000_000, 1000), Gate::Ready);
}

#[test]
fn the_watch_waits_for_the_first_file_to_settle() {
    assert_eq!(next_wait(1000, None), 1_000_000_000);
    assert_eq!(next_wait(50, None), 200_000_000);
    assert_eq!(next_wait(1000, Some(300_000_000)), 300_000_000);
    assert_eq!(next_wait(1000, Some(5_000_000)), 20_000_000);
    assert_eq!(next_wait(1000, Some(9_000_000_000)), 1_000_000_000);
}

#[test]
fn a_date_with_a_wide_character_comes_back_unchanged() {
    assert_eq!(format_pdf_date("D:1234567é"), "D:1234567é");
    assert_eq!(format_pdf_date("D:20260802é1"), "2026-08-02 00:00:00");
}

#[test]
fn a_file_is_named_by_the_last_component_of_its_path() {
    assert_eq!(pdfl::cli::file_name("scripts/check.pdfl"), "check.pdfl");
    assert_eq!(pdfl::cli::file_name("book.pdf"), "book.pdf");
    assert_eq!(pdfl::cli::file_name("a/.."), "");
}
