//! The `pdfl test` command's rules: where the expected report of a case
//! sits, and what changed between the expected report and the one produced.

use vstd::prelude::*;
use crate::ast::strings_view;
use crate::json::{
    as_u64, contains_same, field, field_of, in_list, items_of, json_text, number_u64, push_field,
    push_str_field, str_or_unknown, Json,
};
use crate::text::{nat_text, push_str, push_u64, string_of};

verus! {

/// The stem of a path's file name (`Path::file_stem`): the name without its
/// last extension, or nothing.
pub uninterp spec fn path_file_stem(p: Seq<char>) -> Seq<char>;

/// The path with its last component replaced (`Path::with_file_name`).
pub uninterp spec fn path_with_file_name(p: Seq<char>, name: Seq<char>) -> Seq<char>;

/// Calls `Path::file_stem` on `p`: the file name without its extension, or
/// the empty string when the path has no file name.
#[verifier::external_body]
fn file_stem(p: &str) -> (r: String)
    ensures
        r@ == path_file_stem(p@),
{
    std::path::Path::new(p).file_stem().map(|s| s.to_string_lossy().into_owned()).unwrap_or_default()
}

/// Calls `Path::with_file_name`: `p` with its file name replaced by `name`.
#[verifier::external_body]
fn with_file_name(p: &str, name: &str) -> (r: String)
    ensures
        r@ == path_with_file_name(p@, name@),
{
    std::path::Path::new(p).with_file_name(name).to_string_lossy().into_owned()
}

/// The expected report of a case sits next to its PDF:
/// `cases/invoice.pdf` is checked against `cases/invoice.expected.json`.
pub fn expected_path(pdf_path: &str) -> (r: String)
    ensures
        r@ == path_with_file_name(pdf_path@, path_file_stem(pdf_path@) + ".expected.json"@),
{
    let stem = file_stem(pdf_path);
    let mut name: Vec<char> = crate::text::chars_of(stem.as_str());
    crate::text::push_str(&mut name, ".expected.json");
    let name = crate::text::string_of(&name);
    with_file_name(pdf_path, name.as_str())
}

/// The report fields compared one by one, in this order.
pub open spec fn diff_fields() -> Seq<Seq<char>> {
    seq![
        "schema_version"@,
        "status"@,
        "error_count"@,
        "warning_count"@,
        "info_count"@,
        "total_pages_analyzed"@,
        "profile"@,
    ]
}

/// `" (line N)"` when the finding's `line` is an unsigned integer, else
/// nothing.
pub open spec fn line_suffix(d: Json) -> Seq<char> {
    match as_u64(field_of(d, "line"@)) {
        Some(l) => " (line "@ + nat_text(l) + ")"@,
        None => Seq::empty(),
    }
}

/// A finding as one line: `id [severity] check (line N): message`, with `?`
/// for a field that is not a string.
pub open spec fn describe_text(d: Json) -> Seq<char> {
    str_or_unknown(field_of(d, "id"@)) + " ["@ + str_or_unknown(field_of(d, "severity"@)) + "] "@
        + str_or_unknown(field_of(d, "check_name"@)) + line_suffix(d) + ": "@ + str_or_unknown(
        field_of(d, "message"@),
    )
}

/// `field: expected X, got Y` for each of `fields` whose values differ.
pub open spec fn field_changes(e: Json, a: Json, fields: Seq<Seq<char>>) -> Seq<Seq<char>>
    decreases fields.len(),
{
    if fields.len() == 0 {
        Seq::empty()
    } else {
        let f = fields.last();
        let want = json_text(field_of(e, f));
        let got = json_text(field_of(a, f));
        field_changes(e, a, fields.drop_last()) + if want != got {
            seq![f + ": expected "@ + want + ", got "@ + got]
        } else {
            Seq::empty()
        }
    }
}

/// `label` and the finding, for each finding of `from` that `other` lacks,
/// in the order of `from`.
pub open spec fn absent_lines(from: Seq<Json>, other: Seq<Json>, label: Seq<char>) -> Seq<Seq<char>>
    decreases from.len(),
{
    if from.len() == 0 {
        Seq::empty()
    } else {
        absent_lines(from.drop_last(), other, label) + if !in_list(other, from.last()) {
            seq![label + describe_text(from.last())]
        } else {
            Seq::empty()
        }
    }
}

/// What changed from the expected report `e` to the report `a`: the
/// differing counts and verdict, the findings that vanished and those that
/// appeared, and, only when none of those explains the difference, the
/// checks that ran.
pub open spec fn report_changes(e: Json, a: Json) -> Seq<Seq<char>> {
    let want = items_of(field_of(e, "diagnostics"@));
    let got = items_of(field_of(a, "diagnostics"@));
    let lines = field_changes(e, a, diff_fields()) + absent_lines(want, got, "missing:    "@)
        + absent_lines(got, want, "unexpected: "@);
    let ce = json_text(field_of(e, "checks_run"@));
    let ca = json_text(field_of(a, "checks_run"@));
    if lines.len() == 0 && ce != ca {
        seq!["checks that ran: expected "@ + ce + ", got "@ + ca]
    } else {
        lines
    }
}

/// The differences between the expected report and the report produced,
/// each as parsed (or the parser's error).
pub open spec fn spec_diff(expected: Result<Json, String>, actual: Result<Json, String>) -> Seq<Seq<char>> {
    match expected {
        Err(err) => seq!["the expected report is not valid JSON: "@ + err@],
        Ok(e) => match actual {
            Err(err) => seq!["the report produced is not valid JSON: "@ + err@],
            Ok(a) => report_changes(e, a),
        },
    }
}

/// A finding as one line.
pub fn describe(d: &Json) -> (r: String)
    ensures
        r@ == describe_text(*d),
{
    let mut out: Vec<char> = Vec::new();
    push_str_field(&mut out, d, "id");
    push_str(&mut out, " [");
    push_str_field(&mut out, d, "severity");
    push_str(&mut out, "] ");
    push_str_field(&mut out, d, "check_name");
    let line = match field(d, "line") {
        Some(v) => number_u64(v),
        None => None,
    };
    match line {
        Some(l) => {
            push_str(&mut out, " (line ");
            push_u64(&mut out, l);
            push_str(&mut out, ")");
        },
        None => {},
    }
    push_str(&mut out, ": ");
    push_str_field(&mut out, d, "message");
    assert(out@ =~= describe_text(*d));
    string_of(&out)
}

/// Appends `label` and the finding for each finding of `from` that `other`
/// lacks.
fn push_absent(out: &mut Vec<String>, from: &Vec<Json>, other: &Vec<Json>, label: &str)
    ensures
        strings_view(final(out)@) == strings_view(old(out)@) + absent_lines(from@, other@, label@),
{
    let ghost start = strings_view(out@);
    let mut i: usize = 0;
    while i < from.len()
        invariant
            i <= from@.len(),
            strings_view(out@) == start + absent_lines(from@.take(i as int), other@, label@),
        decreases from.len() - i,
    {
        assert(from@.take(i + 1).drop_last() =~= from@.take(i as int));
        assert(from@.take(i + 1).last() == from@[i as int]);
        if !contains_same(other, &from[i]) {
            let mut line: Vec<char> = Vec::new();
            push_str(&mut line, label);
            let d = describe(&from[i]);
            push_str(&mut line, d.as_str());
            let ghost before = out@;
            out.push(string_of(&line));
            assert(strings_view(out@) =~= strings_view(before).push(line@));
        }
        i = i + 1;
    }
    assert(from@.take(from@.len() as int) =~= from@);
}

/// The diagnostics array of a report, or nothing.
fn diagnostics_of<'a>(r: &'a Json, empty: &'a Vec<Json>) -> (v: &'a Vec<Json>)
    requires
        empty@.len() == 0,
    ensures
        v@ == items_of(field_of(*r, "diagnostics"@)),
{
    match field(r, "diagnostics") {
        Some(Json::Array(v)) => v,
        _ => empty,
    }
}

/// What changed from the expected report to the report produced, in the
/// terms the author wrote the test in: the counts and the verdict, the
/// findings that vanished or appeared, and — only when nothing else differs
/// — the checks that ran.
pub fn diff(expected: &Result<Json, String>, actual: &Result<Json, String>) -> (r: Vec<String>)
    ensures
        strings_view(r@) == spec_diff(*expected, *actual),
{
    let mut out: Vec<String> = Vec::new();
    let (e, a) = match (expected, actual) {
        (Ok(e), Ok(a)) => (e, a),
        (Err(err), _) => {
            let mut line: Vec<char> = Vec::new();
            push_str(&mut line, "the expected report is not valid JSON: ");
            push_str(&mut line, err.as_str());
            out.push(string_of(&line));
            assert(strings_view(out@) =~= spec_diff(*expected, *actual));
            return out;
        },
        (_, Err(err)) => {
            let mut line: Vec<char> = Vec::new();
            push_str(&mut line, "the report produced is not valid JSON: ");
            push_str(&mut line, err.as_str());
            out.push(string_of(&line));
            assert(strings_view(out@) =~= spec_diff(*expected, *actual));
            return out;
        },
    };
    let names: [&str; 7] = [
        "schema_version",
        "status",
        "error_count",
        "warning_count",
        "info_count",
        "total_pages_analyzed",
        "profile",
    ];
    proof {
        reveal_strlit("schema_version");
        reveal_strlit("status");
        reveal_strlit("error_count");
        reveal_strlit("warning_count");
        reveal_strlit("info_count");
        reveal_strlit("total_pages_analyzed");
        reveal_strlit("profile");
    }
    let ghost fields = diff_fields();
    assert(names@.len() == 7);
    assert(forall|k: int| 0 <= k < 7 ==> #[trigger] names@[k]@ == fields[k]);
    assert(strings_view(out@) =~= field_changes(*e, *a, fields.take(0)));
    let mut k: usize = 0;
    while k < 7
        invariant
            k <= 7,
            names@.len() == 7,
            fields == diff_fields(),
            forall|m: int| 0 <= m < 7 ==> #[trigger] names@[m]@ == fields[m],
            strings_view(out@) == field_changes(*e, *a, fields.take(k as int)),
        decreases 7 - k,
    {
        let name = names[k];
        let mut want: Vec<char> = Vec::new();
        push_field(&mut want, e, name);
        let mut got: Vec<char> = Vec::new();
        push_field(&mut got, a, name);
        assert(fields.take(k + 1).drop_last() =~= fields.take(k as int));
        assert(fields.take(k + 1).last() == name@);
        if !crate::text::chars_eq(&want, &got) {
            let mut line: Vec<char> = Vec::new();
            push_str(&mut line, name);
            push_str(&mut line, ": expected ");
            crate::text::push_all(&mut line, &want);
            push_str(&mut line, ", got ");
            crate::text::push_all(&mut line, &got);
            let ghost before = out@;
            out.push(string_of(&line));
            assert(strings_view(out@) =~= strings_view(before).push(line@));
        }
        k = k + 1;
    }
    assert(fields.take(7) =~= fields);
    let empty: Vec<Json> = Vec::new();
    let want = diagnostics_of(e, &empty);
    let got = diagnostics_of(a, &empty);
    push_absent(&mut out, want, got, "missing:    ");
    push_absent(&mut out, got, want, "unexpected: ");
    if out.len() == 0 {
        let mut ce: Vec<char> = Vec::new();
        push_field(&mut ce, e, "checks_run");
        let mut ca: Vec<char> = Vec::new();
        push_field(&mut ca, a, "checks_run");
        if !crate::text::chars_eq(&ce, &ca) {
            let mut line: Vec<char> = Vec::new();
            push_str(&mut line, "checks that ran: expected ");
            crate::text::push_all(&mut line, &ce);
            push_str(&mut line, ", got ");
            crate::text::push_all(&mut line, &ca);
            out.push(string_of(&line));
            assert(strings_view(out@) =~= seq![line@]);
        }
    }
    out
}

} // verus!
