//! The rules behind the `data::` functions: the CSV reader of the datasets
//! (standard quoting, where a field between quotes may hold commas, line
//! breaks and doubled quotes), the glossaries, and the lookups in a table.

use vstd::prelude::*;
use crate::ast::strings_view;
use crate::escape::{char_vecs_view, csv_field_text, csv_needs_quotes, escape_char, escaped, lemma_escaped_append, Escape};
use crate::linediff::{lines_of, text_lines};
use crate::textns::{normalize, spec_normalize};

verus! {

/// The rows of a table, each a list of fields.
pub open spec fn rows_view(v: Seq<Vec<String>>) -> Seq<Seq<Seq<char>>> {
    v.map_values(|r: Vec<String>| strings_view(r@))
}

/// The rows that reading `s` adds to `rows`, given the row and the field
/// being read and whether a quoted field is open.
///
/// A quote opens a quoted field only at the start of a field; inside one, a
/// doubled quote is a quote and a single one closes it. Outside quotes a
/// comma ends the field, a carriage return is dropped, and a line break ends
/// the row (a row holding one empty field, a blank line, is dropped). At the
/// end, a row with anything in it is kept.
pub open spec fn csv_run(
    s: Seq<char>,
    rows: Seq<Seq<Seq<char>>>,
    row: Seq<Seq<char>>,
    field: Seq<char>,
    quoted: bool,
) -> Seq<Seq<Seq<char>>>
    decreases s.len(),
{
    if s.len() == 0 {
        if field.len() > 0 || row.len() > 0 {
            rows.push(row.push(field))
        } else {
            rows
        }
    } else {
        let c = s[0];
        let t = s.drop_first();
        if c == '"' && quoted {
            if t.len() > 0 && t[0] == '"' {
                csv_run(t.drop_first(), rows, row, field.push('"'), quoted)
            } else {
                csv_run(t, rows, row, field, false)
            }
        } else if c == '"' && field.len() == 0 {
            csv_run(t, rows, row, field, true)
        } else if c == ',' && !quoted {
            csv_run(t, rows, row.push(field), Seq::empty(), quoted)
        } else if c == '\r' && !quoted {
            csv_run(t, rows, row, field, quoted)
        } else if c == '\n' && !quoted {
            let full = row.push(field);
            let kept = if full.len() == 1 && full[0].len() == 0 {
                rows
            } else {
                rows.push(full)
            };
            csv_run(t, kept, Seq::empty(), Seq::empty(), quoted)
        } else {
            csv_run(t, rows, row, field.push(c), quoted)
        }
    }
}

/// The rows of a CSV text.
pub open spec fn spec_parse_csv(content: Seq<char>) -> Seq<Seq<Seq<char>>> {
    csv_run(content, Seq::empty(), Seq::empty(), Seq::empty(), false)
}

/// Parses CSV with standard quoting. What `csv_field` writes reads back
/// unchanged (`lemma_csv_round_trip`).
pub fn parse_csv(content: &str) -> (r: Vec<Vec<String>>)
    ensures
        rows_view(r@) == spec_parse_csv(content@),
{
    let s = crate::text::chars_of(content);
    let mut rows: Vec<Vec<String>> = Vec::new();
    let mut row: Vec<String> = Vec::new();
    let mut field: Vec<char> = Vec::new();
    let mut quoted = false;
    let mut i: usize = 0;
    assert(s@.skip(0) =~= s@);
    assert(rows_view(rows@) =~= Seq::<Seq<Seq<char>>>::empty());
    assert(strings_view(row@) =~= Seq::<Seq<char>>::empty());
    while i < s.len()
        invariant
            i <= s@.len(),
            s@ == content@,
            csv_run(s@.skip(i as int), rows_view(rows@), strings_view(row@), field@, quoted)
                == spec_parse_csv(content@),
        decreases s@.len() - i,
    {
        let ghost rest = s@.skip(i as int);
        assert(rest[0] == s@[i as int]);
        assert(rest.drop_first() =~= s@.skip(i + 1));
        let c = s[i];
        if c == '"' && quoted {
            if i + 1 < s.len() && s[i + 1] == '"' {
                assert(rest.drop_first()[0] == s@[i + 1]);
                assert(rest.drop_first().drop_first() =~= s@.skip(i + 2));
                field.push('"');
                i = i + 2;
            } else {
                quoted = false;
                i = i + 1;
            }
        } else if c == '"' && field.len() == 0 {
            quoted = true;
            i = i + 1;
        } else if c == ',' && !quoted {
            let ghost before = strings_view(row@);
            let f = crate::text::string_of(&field);
            row.push(f);
            field = Vec::new();
            assert(strings_view(row@) =~= before.push(f@));
            i = i + 1;
        } else if c == '\r' && !quoted {
            i = i + 1;
        } else if c == '\n' && !quoted {
            let ghost before_row = strings_view(row@);
            let ghost before_rows = rows_view(rows@);
            let f = crate::text::string_of(&field);
            row.push(f);
            field = Vec::new();
            assert(strings_view(row@) =~= before_row.push(f@));
            let blank = row.len() == 1 && row[0].as_str().is_empty();
            if !blank {
                let full = row;
                row = Vec::new();
                let ghost fv = strings_view(full@);
                rows.push(full);
                assert(rows_view(rows@) =~= before_rows.push(fv));
            } else {
                row = Vec::new();
            }
            assert(strings_view(row@) =~= Seq::<Seq<char>>::empty());
            i = i + 1;
        } else {
            field.push(c);
            i = i + 1;
        }
    }
    assert(s@.skip(s@.len() as int) =~= Seq::<char>::empty());
    if field.len() > 0 || row.len() > 0 {
        let ghost before_row = strings_view(row@);
        let ghost before_rows = rows_view(rows@);
        let f = crate::text::string_of(&field);
        row.push(f);
        assert(strings_view(row@) =~= before_row.push(f@));
        let ghost fv = strings_view(row@);
        rows.push(row);
        assert(rows_view(rows@) =~= before_rows.push(fv));
    }
    rows
}

/// A line that is a comment: it starts with `#`.
pub open spec fn is_comment(l: Seq<char>) -> bool {
    l.len() > 0 && l[0] == '#'
}

/// The terms of a glossary: its lines trimmed, blank lines and `#` comments
/// left out, in order.
pub open spec fn spec_glossary_terms(content: Seq<char>) -> Seq<Seq<char>> {
    text_lines(content).filter(|l: Seq<char>| !is_comment(l))
}

/// The terms of a glossary file's text.
pub fn glossary_terms(content: &str) -> (r: Vec<String>)
    ensures
        strings_view(r@) == spec_glossary_terms(content@),
{
    let lines = lines_of(content);
    let ghost lv = char_vecs_view(lines@);
    let mut out: Vec<String> = Vec::new();
    let mut i: usize = 0;
    while i < lines.len()
        invariant
            i <= lines@.len(),
            lv == char_vecs_view(lines@),
            lv == text_lines(content@),
            strings_view(out@) == lv.take(i as int).filter(|l: Seq<char>| !is_comment(l)),
        decreases lines.len() - i,
    {
        let line = &lines[i];
        proof {
            assert(lv.take(i + 1).drop_last() =~= lv.take(i as int));
            assert(lv.take(i + 1).last() == line@);
            reveal(Seq::filter);
        }
        let comment = line.len() > 0 && line[0] == '#';
        if !comment {
            let ghost before = out@;
            out.push(crate::text::string_of(line));
            assert(strings_view(out@) =~= strings_view(before).push(line@));
        }
        i = i + 1;
    }
    assert(lv.take(lines@.len() as int) =~= lv);
    out
}

/// The first row whose first field is `key`.
pub open spec fn first_keyed(rows: Seq<Seq<Seq<char>>>, key: Seq<char>, from: int) -> Option<int>
    decreases rows.len() - from,
{
    if from < 0 || from >= rows.len() {
        None
    } else if rows[from].len() > 0 && rows[from][0] == key {
        Some(from)
    } else {
        first_keyed(rows, key, from + 1)
    }
}

/// The second field of the first row whose first field is `key` (`None`
/// when there is no such row or it has a single field).
pub open spec fn spec_lookup(rows: Seq<Seq<Seq<char>>>, key: Seq<char>) -> Option<Seq<char>> {
    match first_keyed(rows, key, 0) {
        Some(k) => if rows[k].len() > 1 {
            Some(rows[k][1])
        } else {
            None
        },
        None => None,
    }
}

/// The value `data::lookup_value` gives for `key`.
pub fn lookup_value(rows: &Vec<Vec<String>>, key: &str) -> (r: Option<String>)
    ensures
        match spec_lookup(rows_view(rows@), key@) {
            Some(v) => r matches Some(x) && x@ == v,
            None => r is None,
        },
{
    let ghost rv = rows_view(rows@);
    let kv = crate::text::chars_of(key);
    let mut i: usize = 0;
    while i < rows.len()
        invariant
            i <= rows@.len(),
            rv == rows_view(rows@),
            kv@ == key@,
            first_keyed(rv, key@, 0) == first_keyed(rv, key@, i as int),
        decreases rows.len() - i,
    {
        let row = &rows[i];
        assert(rv[i as int] == strings_view(row@));
        if row.len() > 0 && crate::text::chars_eq(&crate::text::chars_of(row[0].as_str()), &kv) {
            if row.len() > 1 {
                return Some(crate::text::owned(row[1].as_str()));
            }
            return None;
        }
        i = i + 1;
    }
    None
}

/// How many bytes UTF-8 takes for `c`.
pub open spec fn utf8_width(c: char) -> nat {
    if (c as u32) < 0x80 {
        1
    } else if (c as u32) < 0x800 {
        2
    } else if (c as u32) < 0x10000 {
        3
    } else {
        4
    }
}

/// The length in bytes of the UTF-8 text `s`.
pub open spec fn utf8_len(s: Seq<char>) -> nat
    decreases s.len(),
{
    if s.len() == 0 {
        0
    } else {
        utf8_len(s.drop_last()) + utf8_width(s.last())
    }
}

/// A record matches `key` (normalised): its first field is the key, or —
/// for a key of at least three bytes — its second field contains it.
pub open spec fn record_matches(row: Seq<Seq<char>>, k: Seq<char>) -> bool {
    (row.len() > 0 && spec_normalize(row[0]) == k) || (utf8_len(k) >= 3 && row.len() > 1
        && crate::structns::contains_text(spec_normalize(row[1]), k))
}

/// The first record after the header that matches `key`.
pub open spec fn first_record(rows: Seq<Seq<Seq<char>>>, k: Seq<char>, from: int) -> Option<int>
    decreases rows.len() - from,
{
    if from < 1 || from >= rows.len() {
        None
    } else if record_matches(rows[from], k) {
        Some(from)
    } else {
        first_record(rows, k, from + 1)
    }
}

/// The position of the record of a reference table (its first row is the
/// header) that `key` names: by its first field, or — for a key of at least
/// three bytes — by a second field that contains it, both compared
/// normalised.
pub fn find_record(rows: &Vec<Vec<String>>, key: &str) -> (r: Option<usize>)
    ensures
        match first_record(rows_view(rows@), spec_normalize(key@), 1) {
            Some(k) => r == Some(k as usize),
            None => r is None,
        },
{
    let ghost rv = rows_view(rows@);
    let target = normalize(key);
    let tv = crate::text::chars_of(target.as_str());
    let mut width: usize = 0;
    let mut c: usize = 0;
    while c < tv.len()
        invariant
            c <= tv@.len(),
            tv@.len() < usize::MAX / 4,
            width <= 4 * c,
            width == utf8_len(tv@.take(c as int)),
        decreases tv.len() - c,
    {
        assert(tv@.take(c + 1).drop_last() =~= tv@.take(c as int));
        let ch = tv[c] as u32;
        let w: usize = if ch < 0x80 { 1 } else if ch < 0x800 { 2 } else if ch < 0x10000 { 3 } else { 4 };
        width = width + w;
        c = c + 1;
    }
    assert(tv@.take(tv@.len() as int) =~= tv@);
    let long_key = width >= 3;
    let mut i: usize = 1;
    if rows.len() == 0 {
        return None;
    }
    while i < rows.len()
        invariant
            1 <= i <= rows@.len(),
            rv == rows_view(rows@),
            tv@ == spec_normalize(key@),
            tv@.len() < usize::MAX / 4,
            long_key == (utf8_len(tv@) >= 3),
            first_record(rv, tv@, 1) == first_record(rv, tv@, i as int),
        decreases rows.len() - i,
    {
        let row = &rows[i];
        assert(rv[i as int] == strings_view(row@));
        let first = row.len() > 0 && {
            let f = normalize(row[0].as_str());
            crate::text::chars_eq(&crate::text::chars_of(f.as_str()), &tv)
        };
        let second = long_key && row.len() > 1 && {
            let f = normalize(row[1].as_str());
            let fv = crate::text::chars_of(f.as_str());
            crate::watch::find(&fv, &tv, 0).is_some()
        };
        proof {
            if row@.len() > 0 {
                assert(strings_view(row@)[0] == row@[0]@);
            }
            if row@.len() > 1 {
                assert(strings_view(row@)[1] == row@[1]@);
            }
        }
        if first || second {
            return Some(i);
        }
        i = i + 1;
    }
    None
}


// ---------------------------------------------------------------------------
// Reading back what the CSV writer wrote.
// ---------------------------------------------------------------------------

/// The fields of a row written as CSV (`csv_field`), separated by commas.
pub open spec fn fields_text(fields: Seq<Seq<char>>) -> Seq<char>
    decreases fields.len(),
{
    if fields.len() <= 1 {
        if fields.len() == 1 {
            csv_field_text(fields[0])
        } else {
            seq![]
        }
    } else {
        csv_field_text(fields[0]) + seq![','] + fields_text(fields.drop_first())
    }
}

/// Rows written as CSV, each ended by a line break.
pub open spec fn table_text(rows: Seq<Seq<Seq<char>>>) -> Seq<char>
    decreases rows.len(),
{
    if rows.len() == 0 {
        seq![]
    } else {
        fields_text(rows[0]) + seq!['\n'] + table_text(rows.drop_first())
    }
}

/// A row the reader keeps: it has a field, and is not one empty field.
pub open spec fn readable_row(row: Seq<Seq<char>>) -> bool {
    row.len() > 0 && !(row.len() == 1 && row[0].len() == 0)
}

proof fn lemma_quoted_content(s: Seq<char>, t: Seq<char>, rows: Seq<Seq<Seq<char>>>, row: Seq<Seq<char>>, f: Seq<char>)
    requires
        t.len() == 0 || t[0] != '"',
    ensures
        csv_run(escaped(Escape::CsvQuote, s) + seq!['"'] + t, rows, row, f, true) == csv_run(t, rows, row, f + s, false),
    decreases s.len(),
{
    if s.len() == 0 {
        assert(escaped(Escape::CsvQuote, s) + seq!['"'] + t =~= seq!['"'] + t);
        assert((seq!['"'] + t).drop_first() =~= t);
        assert(f + s =~= f);
    } else {
        let c = s[0];
        let rest = s.drop_first();
        lemma_escaped_append(Escape::CsvQuote, seq![c], rest);
        assert(seq![c] + rest =~= s);
        assert(seq![c].drop_last() =~= Seq::<char>::empty());
        assert(escaped(Escape::CsvQuote, Seq::<char>::empty()) == Seq::<char>::empty());
        assert(escaped(Escape::CsvQuote, seq![c]) == escaped(Escape::CsvQuote, seq![c].drop_last()) + escape_char(
            Escape::CsvQuote,
            c,
        ));
        assert(Seq::<char>::empty() + escape_char(Escape::CsvQuote, c) =~= escape_char(Escape::CsvQuote, c));
        assert(escaped(Escape::CsvQuote, seq![c]) =~= escape_char(Escape::CsvQuote, c));
        lemma_quoted_content(rest, t, rows, row, f.push(c));
        assert(f.push(c) + rest =~= f + s);
        let text = escaped(Escape::CsvQuote, s) + seq!['"'] + t;
        let after = escaped(Escape::CsvQuote, rest) + seq!['"'] + t;
        if c == '"' {
            assert(text =~= seq!['"', '"'] + after);
            assert(text.drop_first() =~= seq!['"'] + after);
            assert((seq!['"'] + after).drop_first() =~= after);
        } else {
            assert(text =~= seq![c] + after);
            assert(text.drop_first() =~= after);
        }
    }
}

proof fn lemma_plain_content(s: Seq<char>, t: Seq<char>, rows: Seq<Seq<Seq<char>>>, row: Seq<Seq<char>>, f: Seq<char>)
    requires
        !csv_needs_quotes(s),
    ensures
        csv_run(s + t, rows, row, f, false) == csv_run(t, rows, row, f + s, false),
    decreases s.len(),
{
    if s.len() == 0 {
        assert(s + t =~= t);
        assert(f + s =~= f);
    } else {
        let rest = s.drop_first();
        assert(!csv_needs_quotes(rest)) by {
            if csv_needs_quotes(rest) {
                let i = choose|i: int| 0 <= i < rest.len() && (rest[i] == ',' || rest[i] == '"' || rest[i] == '\n' || rest[i] == '\r');
                assert(s[i + 1] == rest[i]);
            }
        }
        assert(!(s[0] == ',' || s[0] == '"' || s[0] == '\n' || s[0] == '\r')) by {
            if s[0] == ',' || s[0] == '"' || s[0] == '\n' || s[0] == '\r' {
                assert(csv_needs_quotes(s));
            }
        }
        lemma_plain_content(rest, t, rows, row, f.push(s[0]));
        assert((s + t).drop_first() =~= rest + t);
        assert((s + t)[0] == s[0]);
        assert(f.push(s[0]) + rest =~= f + s);
    }
}

proof fn lemma_field_read(s: Seq<char>, t: Seq<char>, rows: Seq<Seq<Seq<char>>>, row: Seq<Seq<char>>)
    requires
        t.len() == 0 || t[0] != '"',
    ensures
        csv_run(csv_field_text(s) + t, rows, row, Seq::empty(), false) == csv_run(t, rows, row, s, false),
{
    if csv_needs_quotes(s) {
        let text = csv_field_text(s) + t;
        assert(text =~= seq!['"'] + (escaped(Escape::CsvQuote, s) + seq!['"'] + t));
        assert(text.drop_first() =~= escaped(Escape::CsvQuote, s) + seq!['"'] + t);
        lemma_quoted_content(s, t, rows, row, Seq::empty());
        assert(Seq::<char>::empty() + s =~= s);
    } else {
        lemma_plain_content(s, t, rows, row, Seq::empty());
        assert(Seq::<char>::empty() + s =~= s);
    }
}

proof fn lemma_fields_read(fs: Seq<Seq<char>>, rest: Seq<char>, rows: Seq<Seq<Seq<char>>>, row: Seq<Seq<char>>)
    requires
        fs.len() > 0,
    ensures
        csv_run(fields_text(fs) + seq!['\n'] + rest, rows, row, Seq::empty(), false) == csv_run(
            rest,
            if readable_row(row + fs) { rows.push(row + fs) } else { rows },
            Seq::empty(),
            Seq::empty(),
            false,
        ),
    decreases fs.len(),
{
    let t_end = seq!['\n'] + rest;
    if fs.len() == 1 {
        assert(fields_text(fs) + seq!['\n'] + rest =~= csv_field_text(fs[0]) + t_end);
        lemma_field_read(fs[0], t_end, rows, row);
        assert(t_end.drop_first() =~= rest);
        assert(row.push(fs[0]) =~= row + fs);
    } else {
        let tail = fs.drop_first();
        let t = seq![','] + (fields_text(tail) + seq!['\n'] + rest);
        assert(fields_text(fs) + seq!['\n'] + rest =~= csv_field_text(fs[0]) + t);
        lemma_field_read(fs[0], t, rows, row);
        assert(t.drop_first() =~= fields_text(tail) + seq!['\n'] + rest);
        lemma_fields_read(tail, rest, rows, row.push(fs[0]));
        assert(row.push(fs[0]) + tail =~= row + fs);
    }
}

/// What the CSV writer writes, the reader reads back: rows whose fields
/// are written with `csv_field` (commas, quotes and line breaks inside
/// them included), one line each, come back as they were, as long as no
/// row is empty or a single empty field (a blank line, which the reader
/// skips).
pub proof fn lemma_csv_round_trip(rows: Seq<Seq<Seq<char>>>)
    requires
        forall|k: int| 0 <= k < rows.len() ==> readable_row(#[trigger] rows[k]),
    ensures
        spec_parse_csv(table_text(rows)) == rows,
{
    lemma_table_read(rows, Seq::empty());
    assert(Seq::<Seq<Seq<char>>>::empty() + rows =~= rows);
}

proof fn lemma_table_read(rows: Seq<Seq<Seq<char>>>, acc: Seq<Seq<Seq<char>>>)
    requires
        forall|k: int| 0 <= k < rows.len() ==> readable_row(#[trigger] rows[k]),
    ensures
        csv_run(table_text(rows), acc, Seq::empty(), Seq::empty(), false) == acc + rows,
    decreases rows.len(),
{
    if rows.len() == 0 {
        assert(acc + rows =~= acc);
    } else {
        let r0 = rows[0];
        assert(readable_row(r0));
        let tail = rows.drop_first();
        assert forall|k: int| 0 <= k < tail.len() implies readable_row(#[trigger] tail[k]) by {
            assert(tail[k] == rows[k + 1]);
        }
        lemma_fields_read(r0, table_text(tail), acc, Seq::empty());
        assert(Seq::<Seq<char>>::empty() + r0 =~= r0);
        lemma_table_read(tail, acc.push(r0));
        assert(acc.push(r0) + tail =~= acc + rows);
    }
}

} // verus!
