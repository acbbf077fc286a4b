//! Diagnostics, their identifiers, the report and its text formats, and
//! exit codes.

use vstd::prelude::*;
use sha2::Digest;
use crate::escape::{csv_field_text, escaped, hex_text, push_csv_field, push_escaped_str, Escape};
use crate::text::{nat_text, push_str, push_u64, push_usize, string_of};
use crate::ast::strings_view;

verus! {

/// How serious a finding is.
#[derive(Debug, Clone, Copy, PartialEq, Eq, Structural)]
pub enum Severity {
    Error,
    Warning,
    Info,
}

/// The SHA-256 digest of a byte string.
pub uninterp spec fn sha256(data: Seq<u8>) -> Seq<u8>;

/// Calls `sha2::Sha256::digest`: the SHA-256 digest of `data`, which is 32
/// bytes long (`OutputSize = U32`).
#[verifier::external_body]
pub(crate) fn sha256_digest(data: &Vec<u8>) -> (r: Vec<u8>)
    ensures
        r@ == sha256(data@),
        r@.len() == 32,
{
    sha2::Sha256::digest(data.as_slice()).to_vec()
}

/// The bytes a finding's identifier is the digest of: the check's name and
/// the message, each followed by a unit separator, then the occurrence in
/// decimal, all in UTF-8.
pub open spec fn fingerprint_input(check_name: Seq<char>, message: Seq<char>, occurrence: nat) -> Seq<u8> {
    vstd::utf8::encode_utf8(check_name) + seq![0x1fu8] + vstd::utf8::encode_utf8(message) + seq![
        0x1fu8,
    ] + vstd::utf8::encode_utf8(nat_text(occurrence))
}

/// `PDFL-` and the first eight hexadecimal digits of the digest.
pub open spec fn spec_fingerprint(check_name: Seq<char>, message: Seq<char>, occurrence: nat) -> Seq<char> {
    "PDFL-"@ + hex_text(sha256(fingerprint_input(check_name, message, occurrence))).take(8)
}

fn push_bytes(dst: &mut Vec<u8>, src: &Vec<u8>)
    ensures
        final(dst)@ == old(dst)@ + src@,
{
    let mut i: usize = 0;
    while i < src.len()
        invariant
            i <= src.len(),
            dst@ == old(dst)@ + src@.take(i as int),
        decreases src.len() - i,
    {
        dst.push(src[i]);
        i = i + 1;
        assert(dst@ =~= old(dst)@ + src@.take(i as int));
    }
    assert(src@.take(src.len() as int) =~= src@);
}

/// A finding's identity: what it is about, not where it landed in the run.
/// Derived from the check name and the message (not the line, which moves
/// when the script is edited above it); `occurrence` tells apart the same
/// check failing twice with the identical message.
pub fn fingerprint(check_name: &str, message: &str, occurrence: u32) -> (r: String)
    ensures
        r@ == spec_fingerprint(check_name@, message@, occurrence as nat),
{
    let mut data: Vec<u8> = Vec::new();
    push_bytes(&mut data, &check_name.as_bytes_vec());
    data.push(0x1f);
    push_bytes(&mut data, &message.as_bytes_vec());
    data.push(0x1f);
    let mut digits: Vec<char> = Vec::new();
    push_u64(&mut digits, occurrence as u64);
    let digits = string_of(&digits);
    push_bytes(&mut data, &digits.as_str().as_bytes_vec());
    assert(data@ =~= fingerprint_input(check_name@, message@, occurrence as nat));
    let digest = sha256_digest(&data);
    let hx = crate::escape::hex(digest.as_slice());
    let hv = crate::text::chars_of(hx.as_str());
    proof {
        lemma_hex_text_len(digest@);
    }
    let mut out: Vec<char> = Vec::new();
    push_str(&mut out, "PDFL-");
    let first = crate::text::slice_chars(&hv, 0, 8);
    crate::text::push_all(&mut out, &first);
    assert(hv@.subrange(0, 8) =~= hv@.take(8));
    string_of(&out)
}

/// Two digits a byte.
pub proof fn lemma_hex_text_len(b: Seq<u8>)
    ensures
        hex_text(b).len() == 2 * b.len(),
    decreases b.len(),
{
    if b.len() > 0 {
        lemma_hex_text_len(b.drop_last());
    }
}

/// A finding.
#[derive(Debug, Clone)]
pub struct Diagnostic {
    pub id: String,
    pub severity: Severity,
    pub check_name: String,
    pub message: String,
    pub line: Option<usize>,
}

/// The version of the report's JSON shape.
pub const SCHEMA_VERSION: u32 = 1;

/// The outcome of a run.
#[derive(Debug)]
pub struct Report {
    pub schema_version: u32,
    pub script_name: String,
    pub input_file: String,
    pub profile: Option<String>,
    /// `PASS` or `FAIL`.
    pub status: String,
    pub total_pages_analyzed: i64,
    pub error_count: usize,
    pub warning_count: usize,
    pub info_count: usize,
    pub diagnostics: Vec<Diagnostic>,
    /// The checks and rules that ran, in order.
    pub checks_run: Vec<String>,
    /// Applied fix operations.
    pub fixes: Vec<String>,
    /// Overall similarity 0–100 (the compare commands), as it is shown.
    pub similarity: Option<String>,
}

/// How many findings have severity `s`.
pub open spec fn count_severity(ds: Seq<Diagnostic>, s: Severity) -> nat
    decreases ds.len(),
{
    if ds.len() == 0 {
        0
    } else {
        count_severity(ds.drop_last(), s) + if ds.last().severity == s {
            1nat
        } else {
            0nat
        }
    }
}

proof fn lemma_count_le(ds: Seq<Diagnostic>, s: Severity)
    ensures
        count_severity(ds, s) <= ds.len(),
    decreases ds.len(),
{
    if ds.len() > 0 {
        lemma_count_le(ds.drop_last(), s);
    }
}

fn count(ds: &Vec<Diagnostic>, s: Severity) -> (n: usize)
    ensures
        n == count_severity(ds@, s),
{
    let mut n: usize = 0;
    let mut i: usize = 0;
    while i < ds.len()
        invariant
            i <= ds.len(),
            n == count_severity(ds@.take(i as int), s),
        decreases ds.len() - i,
    {
        assert(ds@.take(i + 1).drop_last() =~= ds@.take(i as int));
        proof {
            lemma_count_le(ds@.take(i as int), s);
        }
        if ds[i].severity == s {
            n = n + 1;
        }
        i = i + 1;
    }
    assert(ds@.take(ds.len() as int) =~= ds@);
    n
}

/// The exit code: 0 when clean, 1 with warnings, 2 with errors (and with
/// warnings too when `fail_on_warning`).
pub open spec fn spec_exit_code(errors: nat, warnings: nat, fail_on_warning: bool) -> int {
    if errors > 0 || (fail_on_warning && warnings > 0) {
        2
    } else if warnings > 0 {
        1
    } else {
        0
    }
}

/// Asking to fail on warnings never lowers the exit code, and only the
/// warnings can raise it.
pub proof fn lemma_fail_on_warning_is_stricter(errors: nat, warnings: nat)
    ensures
        spec_exit_code(errors, warnings, true) >= spec_exit_code(errors, warnings, false),
        spec_exit_code(errors, warnings, true) != spec_exit_code(errors, warnings, false)
            ==> errors == 0 && warnings > 0,
{
}

/// The counts of a report are the numbers of findings of each severity:
/// each is the length of the findings kept by that severity, and the three
/// add up to all the findings.
pub proof fn lemma_severity_counts(ds: Seq<Diagnostic>, s: Severity)
    ensures
        count_severity(ds, s) == ds.filter(|d: Diagnostic| d.severity == s).len(),
        count_severity(ds, Severity::Error) + count_severity(ds, Severity::Warning) + count_severity(
            ds,
            Severity::Info,
        ) == ds.len(),
        count_severity(ds, s) == 0 <==> forall|i: int| 0 <= i < ds.len() ==> (#[trigger] ds[i]).severity != s,
    decreases ds.len(),
{
    reveal(Seq::filter);
    if ds.len() > 0 {
        lemma_severity_counts(ds.drop_last(), s);
        assert(ds.drop_last().push(ds.last()) =~= ds);
        if count_severity(ds.drop_last(), s) == 0 && ds.last().severity != s {
            assert forall|i: int| 0 <= i < ds.len() implies (#[trigger] ds[i]).severity != s by {
                if i < ds.len() - 1 {
                    assert(ds[i] == ds.drop_last()[i]);
                }
            }
        }
        if forall|i: int| 0 <= i < ds.len() ==> (#[trigger] ds[i]).severity != s {
            assert forall|i: int| 0 <= i < ds.drop_last().len() implies (#[trigger] ds.drop_last()[i]).severity != s by {
                assert(ds.drop_last()[i] == ds[i]);
            }
            assert(ds[ds.len() - 1].severity != s);
        }
    }
}

/// What the exit code says: any error gives 2; no error and no warning
/// gives 0; warnings alone give 1, or 2 when failing on warnings; and more
/// findings never lower the code.
pub proof fn lemma_exit_codes(errors: nat, warnings: nat, more_errors: nat, more_warnings: nat, fail_on_warning: bool)
    requires
        more_errors >= errors,
        more_warnings >= warnings,
    ensures
        errors > 0 ==> spec_exit_code(errors, warnings, fail_on_warning) == 2,
        errors == 0 && warnings == 0 ==> spec_exit_code(errors, warnings, fail_on_warning) == 0,
        errors == 0 && warnings > 0 ==> spec_exit_code(errors, warnings, fail_on_warning) == if fail_on_warning {
            2int
        } else {
            1int
        },
        spec_exit_code(more_errors, more_warnings, fail_on_warning) >= spec_exit_code(errors, warnings, fail_on_warning),
{
}

impl Report {
    /// A report over the findings; the counts are derived from them, and it
    /// passes when there is no error.
    pub fn new(
        script_name: String,
        input_file: String,
        profile: Option<String>,
        total_pages_analyzed: i64,
        diagnostics: Vec<Diagnostic>,
    ) -> (r: Report)
        ensures
            r.schema_version == SCHEMA_VERSION,
            r.script_name@ == script_name@,
            r.input_file@ == input_file@,
            r.profile == profile,
            r.total_pages_analyzed == total_pages_analyzed,
            r.diagnostics@ == diagnostics@,
            r.error_count == count_severity(diagnostics@, Severity::Error),
            r.warning_count == count_severity(diagnostics@, Severity::Warning),
            r.info_count == count_severity(diagnostics@, Severity::Info),
            r.status@ == (if r.error_count == 0 {
                "PASS"@
            } else {
                "FAIL"@
            }),
            r.checks_run@.len() == 0,
            r.fixes@.len() == 0,
            r.similarity is None,
    {
        let error_count = count(&diagnostics, Severity::Error);
        let warning_count = count(&diagnostics, Severity::Warning);
        let info_count = count(&diagnostics, Severity::Info);
        let status = if error_count == 0 {
            crate::text::owned("PASS")
        } else {
            crate::text::owned("FAIL")
        };
        Report {
            schema_version: SCHEMA_VERSION,
            script_name,
            input_file,
            profile,
            status,
            total_pages_analyzed,
            error_count,
            warning_count,
            info_count,
            diagnostics,
            checks_run: Vec::new(),
            fixes: Vec::new(),
            similarity: None,
        }
    }

    /// Exit codes: 0 = OK, 1 = warnings, 2 = errors. With `--fail-on
    /// warning`, warnings also drop it to 2.
    pub fn exit_code(&self, fail_on_warning: bool) -> (c: i32)
        ensures
            c == spec_exit_code(self.error_count as nat, self.warning_count as nat, fail_on_warning),
    {
        if self.error_count > 0 || (fail_on_warning && self.warning_count > 0) {
            2
        } else if self.warning_count > 0 {
            1
        } else {
            0
        }
    }
}

/// The word for a severity.
pub open spec fn severity_text(s: Severity) -> Seq<char> {
    match s {
        Severity::Error => "error"@,
        Severity::Warning => "warning"@,
        Severity::Info => "info"@,
    }
}

/// The word for a severity.
pub fn severity_label(s: Severity) -> (r: &'static str)
    ensures
        r@ == severity_text(s),
{
    match s {
        Severity::Error => "error",
        Severity::Warning => "warning",
        Severity::Info => "info",
    }
}

/// A script line in decimal, or nothing.
pub open spec fn line_text(l: Option<usize>) -> Seq<char> {
    match l {
        Some(n) => nat_text(n as nat),
        None => Seq::empty(),
    }
}

/// One CSV row: id, severity, check, message, line, script, file, status.
pub open spec fn csv_row(d: Diagnostic, script: Seq<char>, file: Seq<char>, status: Seq<char>) -> Seq<char> {
    csv_field_text(d.id@) + seq![','] + csv_field_text(severity_text(d.severity)) + seq![',']
        + csv_field_text(d.check_name@) + seq![','] + csv_field_text(d.message@) + seq![',']
        + csv_field_text(line_text(d.line)) + seq![','] + csv_field_text(script) + seq![',']
        + csv_field_text(file) + seq![','] + csv_field_text(status) + seq!['\n']
}

/// The rows of the findings, in order.
pub open spec fn csv_rows(ds: Seq<Diagnostic>, script: Seq<char>, file: Seq<char>, status: Seq<char>) -> Seq<char>
    decreases ds.len(),
{
    if ds.len() == 0 {
        Seq::empty()
    } else {
        csv_rows(ds.drop_last(), script, file, status) + csv_row(ds.last(), script, file, status)
    }
}

/// The CSV header.
pub open spec fn csv_header() -> Seq<char> {
    "id,severity,check,message,line,script,file,status\n"@
}

/// A line number's digits (`to_string`), or nothing.
fn line_string(l: Option<usize>) -> (r: String)
    ensures
        r@ == line_text(l),
{
    let mut v: Vec<char> = Vec::new();
    match l {
        Some(n) => push_usize(&mut v, n),
        None => {},
    }
    assert(v@ =~= line_text(l));
    string_of(&v)
}

#[verifier::spinoff_prover]
#[verifier::rlimit(40)]
fn push_csv_row(out: &mut Vec<char>, d: &Diagnostic, script: &str, file: &str, status: &str)
    ensures
        final(out)@ == old(out)@ + csv_row(*d, script@, file@, status@),
{
    let line = line_string(d.line);
    let ghost mut acc: Seq<char> = Seq::empty();
    let ghost start = out@;
    assert(out@ =~= start + acc);
    push_csv_field(out, d.id.as_str());
    proof {
        let prev = acc;
        acc = acc + csv_field_text(d.id@);
        assert(start + acc =~= (start + prev) + csv_field_text(d.id@));
    }
    out.push(',');
    proof {
        let prev = acc;
        acc = acc + seq![','];
        assert(start + acc =~= (start + prev) + seq![',']);
    }
    push_csv_field(out, severity_label(d.severity));
    proof {
        let prev = acc;
        acc = acc + csv_field_text(severity_text(d.severity));
        assert(start + acc =~= (start + prev) + csv_field_text(severity_text(d.severity)));
    }
    out.push(',');
    proof {
        let prev = acc;
        acc = acc + seq![','];
        assert(start + acc =~= (start + prev) + seq![',']);
    }
    push_csv_field(out, d.check_name.as_str());
    proof {
        let prev = acc;
        acc = acc + csv_field_text(d.check_name@);
        assert(start + acc =~= (start + prev) + csv_field_text(d.check_name@));
    }
    out.push(',');
    proof {
        let prev = acc;
        acc = acc + seq![','];
        assert(start + acc =~= (start + prev) + seq![',']);
    }
    push_csv_field(out, d.message.as_str());
    proof {
        let prev = acc;
        acc = acc + csv_field_text(d.message@);
        assert(start + acc =~= (start + prev) + csv_field_text(d.message@));
    }
    out.push(',');
    proof {
        let prev = acc;
        acc = acc + seq![','];
        assert(start + acc =~= (start + prev) + seq![',']);
    }
    push_csv_field(out, line.as_str());
    proof {
        let prev = acc;
        acc = acc + csv_field_text(line_text(d.line));
        assert(start + acc =~= (start + prev) + csv_field_text(line_text(d.line)));
    }
    out.push(',');
    proof {
        let prev = acc;
        acc = acc + seq![','];
        assert(start + acc =~= (start + prev) + seq![',']);
    }
    push_csv_field(out, script);
    proof {
        let prev = acc;
        acc = acc + csv_field_text(script@);
        assert(start + acc =~= (start + prev) + csv_field_text(script@));
    }
    out.push(',');
    proof {
        let prev = acc;
        acc = acc + seq![','];
        assert(start + acc =~= (start + prev) + seq![',']);
    }
    push_csv_field(out, file);
    proof {
        let prev = acc;
        acc = acc + csv_field_text(file@);
        assert(start + acc =~= (start + prev) + csv_field_text(file@));
    }
    out.push(',');
    proof {
        let prev = acc;
        acc = acc + seq![','];
        assert(start + acc =~= (start + prev) + seq![',']);
    }
    push_csv_field(out, status);
    proof {
        let prev = acc;
        acc = acc + csv_field_text(status@);
        assert(start + acc =~= (start + prev) + csv_field_text(status@));
    }
    out.push('\n');
    proof {
        let prev = acc;
        acc = acc + seq!['\n'];
        assert(start + acc =~= (start + prev) + seq!['\n']);
    }
    assert(acc =~= csv_row(*d, script@, file@, status@));
}

impl Report {
    /// CSV: one line per diagnostic (the header is always present).
    /// `parse_csv` reads it back field by field (`lemma_csv_report_reads_back`).
    pub fn to_csv(&self) -> (r: String)
        ensures
            r@ == csv_header() + csv_rows(
                self.diagnostics@,
                self.script_name@,
                self.input_file@,
                self.status@,
            ),
    {
        let mut out: Vec<char> = Vec::new();
        push_str(&mut out, "id,severity,check,message,line,script,file,status\n");
        let mut i: usize = 0;
        while i < self.diagnostics.len()
            invariant
                i <= self.diagnostics@.len(),
                out@ == csv_header() + csv_rows(
                    self.diagnostics@.take(i as int),
                    self.script_name@,
                    self.input_file@,
                    self.status@,
                ),
            decreases self.diagnostics@.len() - i,
        {
            let d = &self.diagnostics[i];
            assert(self.diagnostics@.take(i + 1).drop_last() =~= self.diagnostics@.take(i as int));
            assert(self.diagnostics@.take(i + 1).last() == self.diagnostics@[i as int]);
            push_csv_row(&mut out, d, self.script_name.as_str(), self.input_file.as_str(), self.status.as_str());
            i = i + 1;
        }
        assert(self.diagnostics@.take(self.diagnostics@.len() as int) =~= self.diagnostics@);
        string_of(&out)
    }
}

/// One finding on one line: `id [severity] (line n) message`.
pub open spec fn describe_text(d: Diagnostic) -> Seq<char> {
    let line = match d.line {
        Some(l) => " (line "@ + nat_text(l as nat) + ")"@,
        None => Seq::empty(),
    };
    d.id@ + " ["@ + severity_text(d.severity) + "]"@ + line + " "@ + d.message@
}

/// One finding on one line, for a format that carries text rather than
/// fields.
pub fn describe(d: &Diagnostic) -> (r: String)
    ensures
        r@ == describe_text(*d),
{
    let mut out: Vec<char> = Vec::new();
    push_str(&mut out, d.id.as_str());
    push_str(&mut out, " [");
    push_str(&mut out, severity_label(d.severity));
    push_str(&mut out, "]");
    match d.line {
        Some(l) => {
            push_str(&mut out, " (line ");
            push_usize(&mut out, l);
            push_str(&mut out, ")");
        },
        None => {},
    }
    push_str(&mut out, " ");
    push_str(&mut out, d.message.as_str());
    assert(out@ =~= describe_text(*d));
    string_of(&out)
}

/// The test cases of the JUnit report after the first `i` findings: the
/// checks that ran, then each check that only shows up in a finding, in
/// first-seen order.
pub open spec fn junit_cases(init: Seq<Seq<char>>, ds: Seq<Diagnostic>, i: nat) -> Seq<Seq<char>>
    decreases i,
{
    if i == 0 {
        init
    } else {
        let prev = junit_cases(init, ds, (i - 1) as nat);
        let c = ds[i - 1].check_name@;
        if prev.contains(c) {
            prev
        } else {
            prev.push(c)
        }
    }
}

/// The findings of a check, in order.
pub open spec fn found_in(ds: Seq<Diagnostic>, case: Seq<char>) -> Seq<Diagnostic>
    decreases ds.len(),
{
    if ds.len() == 0 {
        Seq::empty()
    } else {
        let rest = found_in(ds.drop_last(), case);
        if ds.last().check_name@ == case {
            rest.push(ds.last())
        } else {
            rest
        }
    }
}

/// The findings that are not merely informational.
pub open spec fn failing_of(ds: Seq<Diagnostic>) -> Seq<Diagnostic>
    decreases ds.len(),
{
    if ds.len() == 0 {
        Seq::empty()
    } else {
        let rest = failing_of(ds.drop_last());
        if ds.last().severity != Severity::Info {
            rest.push(ds.last())
        } else {
            rest
        }
    }
}

/// Each finding described, escaped, on a line of its own.
pub open spec fn detail_lines(ds: Seq<Diagnostic>) -> Seq<char>
    decreases ds.len(),
{
    if ds.len() == 0 {
        Seq::empty()
    } else {
        detail_lines(ds.drop_last()) + escaped(Escape::Xml, describe_text(ds.last())) + seq!['\n']
    }
}

/// The `<testcase>` of one check. It fails when a finding of the check is
/// an error or a warning, with the first such finding's message; a check
/// with informational findings only passes and keeps them as output.
pub open spec fn junit_case(case: Seq<char>, file: Seq<char>, found: Seq<Diagnostic>) -> Seq<char> {
    let failing = failing_of(found);
    let head = "    <testcase name=\""@ + escaped(Escape::Xml, case) + "\" classname=\""@ + escaped(
        Escape::Xml,
        file,
    ) + "\""@;
    let detail = detail_lines(found);
    if failing.len() == 0 {
        if detail.len() == 0 {
            head + "/>\n"@
        } else {
            head + ">\n      <system-out>"@ + detail + "      </system-out>\n    </testcase>\n"@
        }
    } else {
        head + ">\n      <failure message=\""@ + escaped(Escape::Xml, failing[0].message@)
            + "\" type=\""@ + severity_text(failing[0].severity) + "\">\n"@ + detail
            + "      </failure>\n    </testcase>\n"@
    }
}

/// The test cases from the `k`-th on.
pub open spec fn junit_body(cases: Seq<Seq<char>>, file: Seq<char>, ds: Seq<Diagnostic>) -> Seq<char>
    decreases cases.len(),
{
    if cases.len() == 0 {
        Seq::empty()
    } else {
        junit_body(cases.drop_last(), file, ds) + junit_case(
            cases.last(),
            file,
            found_in(ds, cases.last()),
        )
    }
}

/// How many cases fail.
pub open spec fn junit_failures(cases: Seq<Seq<char>>, ds: Seq<Diagnostic>) -> nat
    decreases cases.len(),
{
    if cases.len() == 0 {
        0
    } else {
        junit_failures(cases.drop_last(), ds) + if failing_of(found_in(ds, cases.last())).len()
            > 0 {
            1nat
        } else {
            0nat
        }
    }
}

/// The whole JUnit document.
pub open spec fn spec_to_junit(r: Report) -> Seq<char> {
    let cases = junit_cases(strings_view(r.checks_run@), r.diagnostics@, r.diagnostics@.len());
    let n = nat_text(cases.len());
    let f = nat_text(junit_failures(cases, r.diagnostics@));
    "<?xml version=\"1.0\" encoding=\"UTF-8\"?>\n<testsuites name=\"pdfl\" tests=\""@ + n
        + "\" failures=\""@ + f + "\">\n  <testsuite name=\""@ + escaped(
        Escape::Xml,
        r.script_name@,
    ) + "\" tests=\""@ + n + "\" failures=\""@ + f + "\" errors=\"0\" skipped=\"0\">\n"@
        + junit_body(cases, r.input_file@, r.diagnostics@) + "  </testsuite>\n</testsuites>\n"@
}

/// Whether `c` is among `cases`.
fn has_case(cases: &Vec<Vec<char>>, c: &Vec<char>) -> (r: bool)
    ensures
        r == crate::escape::char_vecs_view(cases@).contains(c@),
{
    let ghost v = crate::escape::char_vecs_view(cases@);
    let mut i: usize = 0;
    while i < cases.len()
        invariant
            i <= cases@.len(),
            v == crate::escape::char_vecs_view(cases@),
            forall|j: int| 0 <= j < i ==> v[j] != c@,
        decreases cases@.len() - i,
    {
        if crate::text::chars_eq(&cases[i], c) {
            assert(v[i as int] == c@);
            return true;
        }
        i = i + 1;
    }
    false
}

/// The case text and whether it fails, for one check.
#[verifier::spinoff_prover]
fn junit_case_text(case: &Vec<char>, file: &str, ds: &Vec<Diagnostic>, out: &mut Vec<char>) -> (fails: bool)
    ensures
        final(out)@ == old(out)@ + junit_case(case@, file@, found_in(ds@, case@)),
        fails == (failing_of(found_in(ds@, case@)).len() > 0),
{
    let mut detail: Vec<char> = Vec::new();
    let mut first_fail: Option<usize> = None;
    let mut i: usize = 0;
    while i < ds.len()
        invariant
            i <= ds@.len(),
            detail@ == detail_lines(found_in(ds@.take(i as int), case@)),
            first_fail is None <==> failing_of(found_in(ds@.take(i as int), case@)).len() == 0,
            first_fail matches Some(j) ==> j < i && ds@[j as int] == failing_of(
                found_in(ds@.take(i as int), case@),
            )[0],
        decreases ds@.len() - i,
    {
        let ghost prev = found_in(ds@.take(i as int), case@);
        assert(ds@.take(i + 1).drop_last() =~= ds@.take(i as int));
        assert(ds@.take(i + 1).last() == ds@[i as int]);
        let d = &ds[i];
        let name = crate::text::chars_of(d.check_name.as_str());
        if crate::text::chars_eq(&name, case) {
            let text = describe(d);
            push_escaped_str(&mut detail, Escape::Xml, text.as_str());
            detail.push('\n');
            assert(found_in(ds@.take(i + 1), case@) == prev.push(*d));
            assert(prev.push(*d).drop_last() =~= prev);
            assert(prev.push(*d).last() == *d);
            assert(failing_of(prev.push(*d)) == if d.severity != Severity::Info {
                failing_of(prev).push(*d)
            } else {
                failing_of(prev)
            });
            if d.severity != Severity::Info && first_fail.is_none() {
                first_fail = Some(i);
            }
        } else {
            assert(found_in(ds@.take(i + 1), case@) == prev);
        }
        i = i + 1;
    }
    assert(ds@.take(ds@.len() as int) =~= ds@);
    let ghost found = found_in(ds@, case@);
    push_str(out, "    <testcase name=\"");
    crate::escape::push_escaped_chars(out, Escape::Xml, case);
    push_str(out, "\" classname=\"");
    push_escaped_str(out, Escape::Xml, file);
    push_str(out, "\"");
    let ghost head = out@;
    match first_fail {
        None => {
            if detail.len() == 0 {
                push_str(out, "/>\n");
            } else {
                push_str(out, ">\n      <system-out>");
                crate::text::push_all(out, &detail);
                push_str(out, "      </system-out>\n    </testcase>\n");
            }
            assert(final(out)@ =~= old(out)@ + junit_case(case@, file@, found));
            false
        },
        Some(j) => {
            let first = &ds[j];
            push_str(out, ">\n      <failure message=\"");
            push_escaped_str(out, Escape::Xml, first.message.as_str());
            push_str(out, "\" type=\"");
            push_str(out, severity_label(first.severity));
            push_str(out, "\">\n");
            crate::text::push_all(out, &detail);
            push_str(out, "      </failure>\n    </testcase>\n");
            assert(final(out)@ =~= old(out)@ + junit_case(case@, file@, found));
            true
        },
    }
}

impl Report {
    /// JUnit XML: one test case per check that ran, passing ones included,
    /// plus any check that only shows up in a finding.
    #[verifier::spinoff_prover]
    pub fn to_junit(&self) -> (r: String)
        ensures
            r@ == spec_to_junit(*self),
    {
        let mut cases: Vec<Vec<char>> = Vec::new();
        let mut k: usize = 0;
        while k < self.checks_run.len()
            invariant
                k <= self.checks_run@.len(),
                crate::escape::char_vecs_view(cases@) == strings_view(self.checks_run@).take(
                    k as int,
                ),
            decreases self.checks_run@.len() - k,
        {
            let ghost prev = crate::escape::char_vecs_view(cases@);
            let c = crate::text::chars_of(self.checks_run[k].as_str());
            cases.push(c);
            assert(crate::escape::char_vecs_view(cases@) =~= prev.push(c@));
            assert(strings_view(self.checks_run@).take(k + 1) =~= strings_view(
                self.checks_run@,
            ).take(k as int).push(self.checks_run@[k as int]@));
            k = k + 1;
        }
        assert(strings_view(self.checks_run@).take(self.checks_run@.len() as int) =~= strings_view(
            self.checks_run@,
        ));
        let ghost init = strings_view(self.checks_run@);
        let mut i: usize = 0;
        while i < self.diagnostics.len()
            invariant
                i <= self.diagnostics@.len(),
                crate::escape::char_vecs_view(cases@) == junit_cases(
                    init,
                    self.diagnostics@,
                    i as nat,
                ),
                init == strings_view(self.checks_run@),
            decreases self.diagnostics@.len() - i,
        {
            let name = crate::text::chars_of(self.diagnostics[i].check_name.as_str());
            if !has_case(&cases, &name) {
                let ghost prev = crate::escape::char_vecs_view(cases@);
                cases.push(name);
                assert(crate::escape::char_vecs_view(cases@) =~= prev.push(name@));
            }
            i = i + 1;
        }
        let ghost all = junit_cases(init, self.diagnostics@, self.diagnostics@.len() as nat);
        let mut body: Vec<char> = Vec::new();
        let mut failures: usize = 0;
        let mut c: usize = 0;
        while c < cases.len()
            invariant
                c <= cases@.len(),
                crate::escape::char_vecs_view(cases@) == all,
                body@ == junit_body(all.take(c as int), self.input_file@, self.diagnostics@),
                failures == junit_failures(all.take(c as int), self.diagnostics@),
                failures <= c,
            decreases cases@.len() - c,
        {
            assert(all.take(c + 1).drop_last() =~= all.take(c as int));
            assert(all.take(c + 1).last() == cases@[c as int]@);
            let fails = junit_case_text(&cases[c], self.input_file.as_str(), &self.diagnostics, &mut body);
            if fails {
                failures = failures + 1;
            }
            c = c + 1;
        }
        assert(all.take(cases@.len() as int) =~= all);
        let mut out: Vec<char> = Vec::new();
        push_str(&mut out, "<?xml version=\"1.0\" encoding=\"UTF-8\"?>\n<testsuites name=\"pdfl\" tests=\"");
        push_usize(&mut out, cases.len());
        push_str(&mut out, "\" failures=\"");
        push_usize(&mut out, failures);
        push_str(&mut out, "\">\n  <testsuite name=\"");
        push_escaped_str(&mut out, Escape::Xml, self.script_name.as_str());
        push_str(&mut out, "\" tests=\"");
        push_usize(&mut out, cases.len());
        push_str(&mut out, "\" failures=\"");
        push_usize(&mut out, failures);
        push_str(&mut out, "\" errors=\"0\" skipped=\"0\">\n");
        crate::text::push_all(&mut out, &body);
        push_str(&mut out, "  </testsuite>\n</testsuites>\n");
        assert(out@ =~= spec_to_junit(*self));
        string_of(&out)
    }
}


/// The colour of a severity in the HTML table.
pub open spec fn severity_color(s: Severity) -> Seq<char> {
    match s {
        Severity::Error => "#c0392b"@,
        Severity::Warning => "#b7791f"@,
        Severity::Info => "#2b6cb0"@,
    }
}

/// One row of the HTML table.
pub open spec fn html_row(d: Diagnostic) -> Seq<char> {
    let line = html_line_cell(d.line);
    "<tr><td>"@ + escaped(Escape::Html, d.id@) + "</td><td><span style=\"color:"@
        + severity_color(d.severity) + ";font-weight:600\">"@ + severity_text(d.severity)
        + "</span></td><td>"@ + escaped(Escape::Html, d.check_name@) + "</td><td>"@ + escaped(
        Escape::Html,
        d.message@,
    ) + "</td><td>"@ + line + "</td></tr>\n"@
}

/// The rows of the findings.
pub open spec fn html_rows(ds: Seq<Diagnostic>) -> Seq<char>
    decreases ds.len(),
{
    if ds.len() == 0 {
        Seq::empty()
    } else {
        html_rows(ds.drop_last()) + html_row(ds.last())
    }
}

/// The list items of the applied fixes.
pub open spec fn fix_items(fixes: Seq<Seq<char>>) -> Seq<char>
    decreases fixes.len(),
{
    if fixes.len() == 0 {
        Seq::empty()
    } else {
        fix_items(fixes.drop_last()) + "<li>"@ + escaped(Escape::Html, fixes.last()) + "</li>\n"@
    }
}

/// The table body: the rows, or a line saying there is nothing.
pub open spec fn html_body_rows(ds: Seq<Diagnostic>) -> Seq<char> {
    if ds.len() == 0 {
        "<tr><td colspan=\"5\" style=\"text-align:center;color:#666\">No problems found</td></tr>"@
    } else {
        html_rows(ds)
    }
}

/// The section of applied fixes, if any.
pub open spec fn html_fixes(fixes: Seq<Seq<char>>) -> Seq<char> {
    if fixes.len() == 0 {
        Seq::empty()
    } else {
        "<h2>Applied fixes</h2>\n<ul>"@ + fix_items(fixes) + "</ul>\n"@
    }
}

/// The page's head, up to the colour of the status.
pub open spec fn html_head_text() -> Seq<char> {
    "</title>\n<style>\nbody { font-family: system-ui, sans-serif; margin: 2rem auto; max-width: 60rem; color: #222; }\ntable { border-collapse: collapse; width: 100%; margin-top: 1rem; }\nth, td { border: 1px solid #ddd; padding: 0.5rem 0.75rem; text-align: left; vertical-align: top; }\nth { background: #f5f5f5; }\n.status { display: inline-block; padding: 0.2rem 0.8rem; border-radius: 4px; color: #fff;\n          font-weight: 700; background: "@
}

/// The head of the page after the title, up to the file line.
pub open spec fn html_part_top(r: Report) -> Seq<char> {
    let status_color = if r.status@ == "PASS"@ {
        "#1a7f37"@
    } else {
        "#c0392b"@
    };
    html_head_text() + status_color
        + "; }\n.resumo span { margin-right: 1.5rem; }\n</style>\n</head>\n<body>\n<h1>Validation Report</h1>\n<p><strong>Script:</strong> "@
        + escaped(Escape::Html, r.script_name@)
        + " &nbsp;|&nbsp; <strong>File:</strong> "@ + escaped(Escape::Html, r.input_file@)
        + "</p>\n"@
}

/// The profile and similarity lines, when there are.
pub open spec fn html_part_extra(r: Report) -> Seq<char> {
    let profile = match r.profile {
        Some(p) => "<p><strong>Profile:</strong> "@ + escaped(Escape::Html, p@) + "</p>\n"@,
        None => Seq::empty(),
    };
    let similarity = match r.similarity {
        Some(s) => "<p><strong>Similarity:</strong> "@ + s@ + "%</p>\n"@,
        None => Seq::empty(),
    };
    profile + similarity
}

/// The status and the counts.
pub open spec fn html_part_counts(r: Report) -> Seq<char> {
    "<p><span class=\"status\">"@ + escaped(Escape::Html, r.status@)
        + "</span></p>\n<p class=\"resumo\">\n<span><strong>"@ + nat_text(r.error_count as nat)
        + "</strong> error(s)</span>\n<span><strong>"@ + nat_text(r.warning_count as nat)
        + "</strong> warning(s)</span>\n<span><strong>"@ + nat_text(r.info_count as nat)
        + "</strong> info(s)</span>\n<span><strong>"@ + crate::fmt::i64_text(
        r.total_pages_analyzed,
    ) + "</strong> page(s) analyzed</span>\n</p>\n"@
}

/// The table of findings and the end of the page.
pub open spec fn html_part_table(r: Report) -> Seq<char> {
    "<h2>Diagnostics</h2>\n<table>\n<thead><tr><th>ID</th><th>Severity</th><th>Check</th><th>Message</th><th>Line</th></tr></thead>\n<tbody>\n"@
        + html_body_rows(r.diagnostics@) + "</tbody>\n</table>\n</body>\n</html>\n"@
}

/// The HTML report, from the title on.
pub open spec fn html_after_title(r: Report) -> Seq<char> {
    html_part_top(r) + html_part_extra(r) + html_part_counts(r) + html_fixes(strings_view(r.fixes@))
        + html_part_table(r)
}

/// The self-contained HTML report.
pub open spec fn spec_to_html(r: Report) -> Seq<char> {
    "<!DOCTYPE html>\n<html lang=\"en\">\n<head>\n<meta charset=\"utf-8\">\n<title>PDFL Report — "@
        + escaped(Escape::Html, r.script_name@) + html_after_title(r)
}

/// The line cell of a row.
pub open spec fn html_line_cell(l: Option<usize>) -> Seq<char> {
    match l {
        Some(n) => nat_text(n as nat),
        None => "—"@,
    }
}

#[verifier::spinoff_prover]
#[verifier::rlimit(40)]
fn push_html_row(out: &mut Vec<char>, d: &Diagnostic)
    ensures
        final(out)@ == old(out)@ + html_row(*d),
{
    let ghost start = out@;
    let ghost mut acc: Seq<char> = Seq::empty();
    push_str(out, "<tr><td>");
    proof { acc = acc + "<tr><td>"@; assert(out@ =~= start + acc); }
    push_escaped_str(out, Escape::Html, d.id.as_str());
    proof { let p = acc; acc = acc + escaped(Escape::Html, d.id@); assert(start + acc =~= (start + p) + escaped(Escape::Html, d.id@)); }
    push_str(out, "</td><td><span style=\"color:");
    proof { let p = acc; acc = acc + "</td><td><span style=\"color:"@; assert(start + acc =~= (start + p) + "</td><td><span style=\"color:"@); }
    match d.severity {
        Severity::Error => push_str(out, "#c0392b"),
        Severity::Warning => push_str(out, "#b7791f"),
        Severity::Info => push_str(out, "#2b6cb0"),
    }
    proof { let p = acc; acc = acc + severity_color(d.severity); assert(start + acc =~= (start + p) + severity_color(d.severity)); }
    push_str(out, ";font-weight:600\">");
    proof { let p = acc; acc = acc + ";font-weight:600\">"@; assert(start + acc =~= (start + p) + ";font-weight:600\">"@); }
    push_str(out, severity_label(d.severity));
    proof { let p = acc; acc = acc + severity_text(d.severity); assert(start + acc =~= (start + p) + severity_text(d.severity)); }
    push_str(out, "</span></td><td>");
    proof { let p = acc; acc = acc + "</span></td><td>"@; assert(start + acc =~= (start + p) + "</span></td><td>"@); }
    push_escaped_str(out, Escape::Html, d.check_name.as_str());
    proof { let p = acc; acc = acc + escaped(Escape::Html, d.check_name@); assert(start + acc =~= (start + p) + escaped(Escape::Html, d.check_name@)); }
    push_str(out, "</td><td>");
    proof { let p = acc; acc = acc + "</td><td>"@; assert(start + acc =~= (start + p) + "</td><td>"@); }
    push_escaped_str(out, Escape::Html, d.message.as_str());
    proof { let p = acc; acc = acc + escaped(Escape::Html, d.message@); assert(start + acc =~= (start + p) + escaped(Escape::Html, d.message@)); }
    push_str(out, "</td><td>");
    proof { let p = acc; acc = acc + "</td><td>"@; assert(start + acc =~= (start + p) + "</td><td>"@); }
    match d.line {
        Some(l) => push_usize(out, l),
        None => push_str(out, "—"),
    }
    proof { let p = acc; acc = acc + html_line_cell(d.line); assert(start + acc =~= (start + p) + html_line_cell(d.line)); }
    push_str(out, "</td></tr>\n");
    proof { let p = acc; acc = acc + "</td></tr>\n"@; assert(start + acc =~= (start + p) + "</td></tr>\n"@); }
    assert(acc =~= html_row(*d));
}

#[verifier::spinoff_prover]
fn push_html_top(out: &mut Vec<char>, r: &Report)
    ensures
        final(out)@ == old(out)@ + html_part_top(*r),
{
    let ghost a = out@;
    push_str(out, "</title>\n<style>\nbody { font-family: system-ui, sans-serif; margin: 2rem auto; max-width: 60rem; color: #222; }\ntable { border-collapse: collapse; width: 100%; margin-top: 1rem; }\nth, td { border: 1px solid #ddd; padding: 0.5rem 0.75rem; text-align: left; vertical-align: top; }\nth { background: #f5f5f5; }\n.status { display: inline-block; padding: 0.2rem 0.8rem; border-radius: 4px; color: #fff;\n          font-weight: 700; background: ");
    let pass = crate::text::chars_eq_str(&crate::text::chars_of(r.status.as_str()), "PASS");
    if pass {
        push_str(out, "#1a7f37");
    } else {
        push_str(out, "#c0392b");
    }
    push_str(out, "; }\n.resumo span { margin-right: 1.5rem; }\n</style>\n</head>\n<body>\n<h1>Validation Report</h1>\n<p><strong>Script:</strong> ");
    push_escaped_str(out, Escape::Html, r.script_name.as_str());
    push_str(out, " &nbsp;|&nbsp; <strong>File:</strong> ");
    push_escaped_str(out, Escape::Html, r.input_file.as_str());
    push_str(out, "</p>\n");
    assert(out@ =~= a + html_part_top(*r));
}

#[verifier::spinoff_prover]
fn push_html_extra(out: &mut Vec<char>, r: &Report)
    ensures
        final(out)@ == old(out)@ + html_part_extra(*r),
{
    let ghost a = out@;
    match &r.profile {
        Some(p) => {
            push_str(out, "<p><strong>Profile:</strong> ");
            push_escaped_str(out, Escape::Html, p.as_str());
            push_str(out, "</p>\n");
        },
        None => {},
    }
    match &r.similarity {
        Some(sim) => {
            push_str(out, "<p><strong>Similarity:</strong> ");
            push_str(out, sim.as_str());
            push_str(out, "%</p>\n");
        },
        None => {},
    }
    assert(out@ =~= a + html_part_extra(*r));
}

#[verifier::spinoff_prover]
fn push_html_counts(out: &mut Vec<char>, r: &Report)
    ensures
        final(out)@ == old(out)@ + html_part_counts(*r),
{
    let ghost a = out@;
    push_str(out, "<p><span class=\"status\">");
    push_escaped_str(out, Escape::Html, r.status.as_str());
    push_str(out, "</span></p>\n<p class=\"resumo\">\n<span><strong>");
    push_usize(out, r.error_count);
    push_str(out, "</strong> error(s)</span>\n<span><strong>");
    push_usize(out, r.warning_count);
    push_str(out, "</strong> warning(s)</span>\n<span><strong>");
    push_usize(out, r.info_count);
    push_str(out, "</strong> info(s)</span>\n<span><strong>");
    crate::fmt::push_i64(out, r.total_pages_analyzed);
    push_str(out, "</strong> page(s) analyzed</span>\n</p>\n");
    assert(out@ =~= a + html_part_counts(*r));
}

#[verifier::spinoff_prover]
fn push_html_fixes(out: &mut Vec<char>, r: &Report)
    ensures
        final(out)@ == old(out)@ + html_fixes(strings_view(r.fixes@)),
{
    let ghost c = out@;
    if r.fixes.len() > 0 {
        push_str(out, "<h2>Applied fixes</h2>\n<ul>");
        let ghost start = out@;
        let ghost fv = strings_view(r.fixes@);
        let mut i: usize = 0;
        while i < r.fixes.len()
            invariant
                i <= r.fixes@.len(),
                fv == strings_view(r.fixes@),
                out@ == start + fix_items(fv.take(i as int)),
            decreases r.fixes@.len() - i,
        {
            assert(fv.take(i + 1).drop_last() =~= fv.take(i as int));
            assert(fv.take(i + 1).last() == r.fixes@[i as int]@);
            let ghost before = out@;
            push_str(out, "<li>");
            push_escaped_str(out, Escape::Html, r.fixes[i].as_str());
            push_str(out, "</li>\n");
            assert(out@ =~= before + ("<li>"@ + escaped(Escape::Html, r.fixes@[i as int]@)
                + "</li>\n"@));
            i = i + 1;
        }
        assert(fv.take(r.fixes@.len() as int) =~= fv);
        push_str(out, "</ul>\n");
    }
    assert(out@ =~= c + html_fixes(strings_view(r.fixes@)));
}

#[verifier::spinoff_prover]
fn push_html_table(out: &mut Vec<char>, r: &Report)
    ensures
        final(out)@ == old(out)@ + html_part_table(*r),
{
    let ghost a = out@;
    push_str(out, "<h2>Diagnostics</h2>\n<table>\n<thead><tr><th>ID</th><th>Severity</th><th>Check</th><th>Message</th><th>Line</th></tr></thead>\n<tbody>\n");
    let ghost d0 = out@;
    if r.diagnostics.len() == 0 {
        push_str(out, "<tr><td colspan=\"5\" style=\"text-align:center;color:#666\">No problems found</td></tr>");
    } else {
        let mut i: usize = 0;
        while i < r.diagnostics.len()
            invariant
                i <= r.diagnostics@.len(),
                out@ == d0 + html_rows(r.diagnostics@.take(i as int)),
            decreases r.diagnostics@.len() - i,
        {
            assert(r.diagnostics@.take(i + 1).drop_last() =~= r.diagnostics@.take(i as int));
            assert(r.diagnostics@.take(i + 1).last() == r.diagnostics@[i as int]);
            push_html_row(out, &r.diagnostics[i]);
            i = i + 1;
        }
        assert(r.diagnostics@.take(r.diagnostics@.len() as int) =~= r.diagnostics@);
    }
    assert(out@ =~= d0 + html_body_rows(r.diagnostics@));
    push_str(out, "</tbody>\n</table>\n</body>\n</html>\n");
    assert(out@ =~= a + html_part_table(*r));
}

fn push_html_middle(out: &mut Vec<char>, r: &Report)
    ensures
        final(out)@ == old(out)@ + html_after_title(*r),
{
    let ghost a = out@;
    push_html_top(out, r);
    let ghost b = out@;
    push_html_extra(out, r);
    let ghost c = out@;
    push_html_counts(out, r);
    let ghost d = out@;
    push_html_fixes(out, r);
    let ghost e = out@;
    push_html_table(out, r);
    assert(out@ =~= a + html_after_title(*r));
}

impl Report {
    /// Self-contained HTML (inline CSS), in English.
    pub fn to_html(&self) -> (r: String)
        ensures
            r@ == spec_to_html(*self),
    {
        let mut out: Vec<char> = Vec::new();
        push_str(&mut out, "<!DOCTYPE html>\n<html lang=\"en\">\n<head>\n<meta charset=\"utf-8\">\n<title>PDFL Report — ");
        push_escaped_str(&mut out, Escape::Html, self.script_name.as_str());
        push_html_middle(&mut out, self);
        string_of(&out)
    }
}

/// The SARIF level of a severity (SARIF has no `info`; `note` stands for
/// it).
pub open spec fn sarif_level_text(s: Severity) -> Seq<char> {
    match s {
        Severity::Error => "error"@,
        Severity::Warning => "warning"@,
        Severity::Info => "note"@,
    }
}

impl Severity {
    /// The level of a finding of this severity in SARIF.
    pub fn sarif_level(&self) -> (r: String)
        ensures
            r@ == sarif_level_text(*self),
    {
        match self {
            Severity::Error => crate::text::owned("error"),
            Severity::Warning => crate::text::owned("warning"),
            Severity::Info => crate::text::owned("note"),
        }
    }
}

/// The check names of the findings.
pub open spec fn check_names(ds: Seq<Diagnostic>) -> Seq<Seq<char>> {
    ds.map_values(|d: Diagnostic| d.check_name@)
}

impl Report {
    /// The rules of the SARIF log: the distinct check names of the findings,
    /// in the order they first occur.
    pub fn rule_ids(&self) -> (r: Vec<String>)
        ensures
            strings_view(r@) == crate::compare::distinct(check_names(self.diagnostics@)),
    {
        let ghost names = check_names(self.diagnostics@);
        let mut ids: Vec<String> = Vec::new();
        let mut i: usize = 0;
        while i < self.diagnostics.len()
            invariant
                i <= self.diagnostics@.len(),
                names == check_names(self.diagnostics@),
                strings_view(ids@) == crate::compare::distinct(names.take(i as int)),
            decreases self.diagnostics.len() - i,
        {
            assert(names.take(i + 1).drop_last() =~= names.take(i as int));
            assert(names.take(i + 1).last() == self.diagnostics@[i as int].check_name@);
            crate::structns::push_unique(&mut ids, self.diagnostics[i].check_name.clone());
            i = i + 1;
        }
        assert(names.take(self.diagnostics@.len() as int) =~= names);
        ids
    }
}

/// The column names of the CSV report.
pub open spec fn csv_columns() -> Seq<Seq<char>> {
    seq!["id"@, "severity"@, "check"@, "message"@, "line"@, "script"@, "file"@, "status"@]
}

/// The fields of one finding's CSV row.
pub open spec fn csv_fields(d: Diagnostic, script: Seq<char>, file: Seq<char>, status: Seq<char>) -> Seq<Seq<char>> {
    seq![d.id@, severity_text(d.severity), d.check_name@, d.message@, line_text(d.line), script, file, status]
}

/// The rows of the findings, field by field.
pub open spec fn csv_table(ds: Seq<Diagnostic>, script: Seq<char>, file: Seq<char>, status: Seq<char>) -> Seq<Seq<Seq<char>>> {
    ds.map_values(|d: Diagnostic| csv_fields(d, script, file, status))
}

#[verifier::spinoff_prover]
#[verifier::rlimit(100)]
proof fn lemma_eight_fields(f: Seq<Seq<char>>)
    requires
        f.len() == 8,
    ensures
        crate::datans::fields_text(f) + seq!['\n'] == csv_field_text(f[0]) + seq![','] + csv_field_text(f[1]) + seq![',']
            + csv_field_text(f[2]) + seq![','] + csv_field_text(f[3]) + seq![','] + csv_field_text(f[4]) + seq![',']
            + csv_field_text(f[5]) + seq![','] + csv_field_text(f[6]) + seq![','] + csv_field_text(f[7]) + seq!['\n'],
{
    let t1 = f.drop_first();
    let t2 = t1.drop_first();
    let t3 = t2.drop_first();
    let t4 = t3.drop_first();
    let t5 = t4.drop_first();
    let t6 = t5.drop_first();
    let t7 = t6.drop_first();
    assert(crate::datans::fields_text(t7) == csv_field_text(f[7]));
    assert(crate::datans::fields_text(t6) == csv_field_text(f[6]) + seq![','] + crate::datans::fields_text(t7));
    assert(crate::datans::fields_text(t5) == csv_field_text(f[5]) + seq![','] + crate::datans::fields_text(t6));
    assert(crate::datans::fields_text(t4) == csv_field_text(f[4]) + seq![','] + crate::datans::fields_text(t5));
    assert(crate::datans::fields_text(t3) == csv_field_text(f[3]) + seq![','] + crate::datans::fields_text(t4));
    assert(crate::datans::fields_text(t2) == csv_field_text(f[2]) + seq![','] + crate::datans::fields_text(t3));
    assert(crate::datans::fields_text(t1) == csv_field_text(f[1]) + seq![','] + crate::datans::fields_text(t2));
    assert(crate::datans::fields_text(f) == csv_field_text(f[0]) + seq![','] + crate::datans::fields_text(t1));
    assert(crate::datans::fields_text(f) + seq!['\n'] =~= csv_field_text(f[0]) + seq![','] + csv_field_text(f[1]) + seq![',']
        + csv_field_text(f[2]) + seq![','] + csv_field_text(f[3]) + seq![','] + csv_field_text(f[4]) + seq![',']
        + csv_field_text(f[5]) + seq![','] + csv_field_text(f[6]) + seq![','] + csv_field_text(f[7]) + seq!['\n']);
}

proof fn lemma_plain_field(s: Seq<char>)
    requires
        forall|i: int| 0 <= i < s.len() ==> 'a' <= #[trigger] s[i] <= 'z',
    ensures
        csv_field_text(s) == s,
{
    assert(!crate::escape::csv_needs_quotes(s)) by {
        if crate::escape::csv_needs_quotes(s) {
            let i = choose|i: int| 0 <= i < s.len() && (s[i] == ',' || s[i] == '"' || s[i] == '\n' || s[i] == '\r');
            assert('a' <= s[i] <= 'z');
        }
    }
}

proof fn lemma_table_text_push(rows: Seq<Seq<Seq<char>>>, r: Seq<Seq<char>>)
    ensures
        crate::datans::table_text(rows.push(r)) == crate::datans::table_text(rows) + crate::datans::fields_text(r) + seq!['\n'],
    decreases rows.len(),
{
    if rows.len() == 0 {
        assert(rows.push(r).drop_first() =~= Seq::<Seq<Seq<char>>>::empty());
        assert(crate::datans::table_text(Seq::<Seq<Seq<char>>>::empty()) == Seq::<char>::empty());
        assert(crate::datans::table_text(rows.push(r)) =~= crate::datans::table_text(rows) + crate::datans::fields_text(r) + seq!['\n']);
    } else {
        lemma_table_text_push(rows.drop_first(), r);
        assert(rows.push(r).drop_first() =~= rows.drop_first().push(r));
        assert(rows.push(r)[0] == rows[0]);
        assert(crate::datans::table_text(rows.push(r)) =~= crate::datans::table_text(rows) + crate::datans::fields_text(r) + seq!['\n']);
    }
}

proof fn lemma_csv_rows_table(ds: Seq<Diagnostic>, script: Seq<char>, file: Seq<char>, status: Seq<char>)
    ensures
        csv_rows(ds, script, file, status) == crate::datans::table_text(csv_table(ds, script, file, status)),
    decreases ds.len(),
{
    if ds.len() == 0 {
        assert(csv_table(ds, script, file, status) =~= Seq::<Seq<Seq<char>>>::empty());
    } else {
        lemma_csv_rows_table(ds.drop_last(), script, file, status);
        let f = csv_fields(ds.last(), script, file, status);
        assert(csv_table(ds, script, file, status) =~= csv_table(ds.drop_last(), script, file, status).push(f));
        lemma_table_text_push(csv_table(ds.drop_last(), script, file, status), f);
        lemma_eight_fields(f);
        assert(csv_row(ds.last(), script, file, status) == crate::datans::fields_text(f) + seq!['\n']);
        assert(csv_rows(ds, script, file, status) =~= crate::datans::table_text(csv_table(ds, script, file, status)));
    }
}

/// The CSV report reads back: parsing what `to_csv` writes gives the
/// header's column names, then for each finding, in order, its id,
/// severity, check, message, line (or nothing), script, file and status,
/// whatever commas, quotes or line breaks they hold.
pub proof fn lemma_csv_report_reads_back(ds: Seq<Diagnostic>, script: Seq<char>, file: Seq<char>, status: Seq<char>)
    ensures
        crate::datans::spec_parse_csv(csv_header() + csv_rows(ds, script, file, status))
            == seq![csv_columns()] + csv_table(ds, script, file, status),
{
    let cols = csv_columns();
    reveal_strlit("id");
    reveal_strlit("severity");
    reveal_strlit("check");
    reveal_strlit("message");
    reveal_strlit("line");
    reveal_strlit("script");
    reveal_strlit("file");
    reveal_strlit("status");
    reveal_strlit("id,severity,check,message,line,script,file,status\n");
    assert forall|k: int| 0 <= k < 8 implies csv_field_text(#[trigger] cols[k]) == cols[k] by {
        lemma_plain_field(cols[k]);
    }
    lemma_eight_fields(cols);
    assert(csv_header() =~= crate::datans::fields_text(cols) + seq!['\n']);
    let table = seq![cols] + csv_table(ds, script, file, status);
    lemma_csv_rows_table(ds, script, file, status);
    assert(table.drop_first() =~= csv_table(ds, script, file, status));
    assert(crate::datans::table_text(table) == crate::datans::fields_text(cols) + seq!['\n'] + crate::datans::table_text(
        csv_table(ds, script, file, status),
    ));
    assert(csv_header() + csv_rows(ds, script, file, status) =~= crate::datans::table_text(table));
    assert forall|k: int| 0 <= k < table.len() implies crate::datans::readable_row(#[trigger] table[k]) by {
        if k > 0 {
            assert(table[k] == csv_fields(ds[k - 1], script, file, status));
        }
    }
    crate::datans::lemma_csv_round_trip(table);
}

} // verus!
