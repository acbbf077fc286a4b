use pdfl::json::{same, to_text, Json};
use pdfl::testcmd::{describe, diff};

fn json_of(v: &serde_json::Value) -> Json {
    match v {
        serde_json::Value::Null => Json::Null,
        serde_json::Value::Bool(b) => Json::Bool(*b),
        serde_json::Value::Number(n) => Json::Number(n.to_string()),
        serde_json::Value::String(s) => Json::Str(s.clone()),
        serde_json::Value::Array(a) => Json::Array(a.iter().map(json_of).collect()),
        serde_json::Value::Object(o) => {
            Json::Object(o.iter().map(|(k, v)| (k.clone(), json_of(v))).collect())
        }
    }
}

fn parse(text: &str) -> Result<Json, String> {
    serde_json::from_str::<serde_json::Value>(text).map(|v| json_of(&v)).map_err(|e| e.to_string())
}

fn diff_text(expected: &str, actual: &str) -> Vec<String> {
    diff(&parse(expected), &parse(actual))
}

const BASE: &str = r#"{
  "schema_version": 1,
  "script_name": "p.pdfl",
  "input_file": "a.pdf",
  "status": "FAIL",
  "total_pages_analyzed": 3,
  "error_count": 1,
  "warning_count": 0,
  "info_count": 0,
  "diagnostics": [
    {"id": "PDFL-aaaa1111", "severity": "error", "check_name": "Ink",
     "message": "324% ink", "line": 12}
  ],
  "checks_run": ["Ink", "Fonts"]
}"#;

#[test]
fn an_identical_report_has_no_differences() {
    assert!(diff_text(BASE, BASE).is_empty());
}

#[test]
fn the_input_path_is_not_compared() {
    let moved = BASE.replace("\"a.pdf\"", "\"/somewhere/else/a.pdf\"");
    assert!(diff_text(BASE, &moved).is_empty(), "{:?}", diff_text(BASE, &moved));
}

#[test]
fn a_finding_that_disappeared_is_named() {
    let fixed = BASE.replace(
        r#"{"id": "PDFL-aaaa1111", "severity": "error", "check_name": "Ink",
     "message": "324% ink", "line": 12}"#,
        "",
    );
    let fixed = fixed.replace("\"error_count\": 1", "\"error_count\": 0");
    let d = diff_text(BASE, &fixed);
    assert!(d.iter().any(|l| l.contains("error_count: expected 1, got 0")), "{d:?}");
    assert!(d.iter().any(|l| l.starts_with("missing:") && l.contains("324% ink")), "{d:?}");
}

#[test]
fn a_new_finding_is_named() {
    let extra = BASE.replace(
        r#""message": "324% ink", "line": 12}"#,
        r#""message": "324% ink", "line": 12},
    {"id": "PDFL-bbbb2222", "severity": "warning", "check_name": "Bleed",
     "message": "bleed below 3mm"}"#,
    );
    let d = diff_text(BASE, &extra);
    assert!(d.iter().any(|l| l.starts_with("unexpected:") && l.contains("bleed below 3mm")), "{d:?}");
}

#[test]
fn a_check_that_stopped_running_is_reported() {
    let fewer = BASE.replace(r#"["Ink", "Fonts"]"#, r#"["Ink"]"#);
    let d = diff_text(BASE, &fewer);
    assert_eq!(d.len(), 1, "{d:?}");
    assert!(d[0].starts_with("checks that ran:"), "{d:?}");
}

#[test]
fn the_diff_lines_read_exactly() {
    let fixed = BASE.replace("\"error_count\": 1", "\"error_count\": 0");
    let fixed = fixed.replace("\"line\": 12", "\"line\": 13");
    let d = diff_text(BASE, &fixed);
    assert_eq!(
        d,
        vec![
            "error_count: expected 1, got 0".to_string(),
            "missing:    PDFL-aaaa1111 [error] Ink (line 12): 324% ink".to_string(),
            "unexpected: PDFL-aaaa1111 [error] Ink (line 13): 324% ink".to_string(),
        ]
    );
    let d = diff_text(BASE, "{\"status\": \"PASS\"}");
    assert!(d.contains(&"status: expected \"FAIL\", got \"PASS\"".to_string()), "{d:?}");
    assert!(d.contains(&"schema_version: expected 1, got null".to_string()), "{d:?}");
    assert!(!d.iter().any(|l| l.starts_with("profile")), "{d:?}");
}

#[test]
fn an_unreadable_report_is_named() {
    let d = diff(&Err("bad".to_string()), &parse(BASE));
    assert_eq!(d, vec!["the expected report is not valid JSON: bad".to_string()]);
    let d = diff(&parse(BASE), &Err("worse".to_string()));
    assert_eq!(d, vec!["the report produced is not valid JSON: worse".to_string()]);
}

#[test]
fn a_finding_is_described_with_question_marks_for_what_is_missing() {
    let d = parse(r#"{"id": "X", "line": 3.5}"#).unwrap();
    assert_eq!(describe(&d), "X [?] ?: ?");
    let d = parse(r#"{"id": "X", "severity": "info", "check_name": "C", "message": "m", "line": 0}"#).unwrap();
    assert_eq!(describe(&d), "X [info] C (line 0): m");
}

#[test]
fn json_text_is_compact() {
    let v = parse(r#"{ "b": [1, 2.5, "x\"y"], "a": null, "c": {"t": true} }"#).unwrap();
    assert_eq!(to_text(&v), r#"{"a":null,"b":[1,2.5,"x\"y"],"c":{"t":true}}"#);
    assert!(same(&v, &parse(r#"{"c":{"t":true},"a":null,"b":[1,2.5,"x\"y"]}"#).unwrap()));
    assert!(!same(&v, &parse("[]").unwrap()));
}
