//! The quoting rules of the comparison viewer: text placed in its HTML, and
//! strings placed in its script.

use vstd::prelude::*;
use crate::escape::{escaped, hex_digit, Escape};

verus! {

/// Text placed in the page: `& < > "` as entities.
pub fn escape(s: &str) -> (r: String)
    ensures
        r@ == escaped(Escape::Html, s@),
{
    crate::escape::html_escape(s)
}

/// How JSON writes one character inside a string: a quote and a backslash
/// behind a backslash, the control characters as `\b \t \n \f \r` or
/// `\u00xx`, everything else as it is.
pub open spec fn json_char(c: char) -> Seq<char> {
    if c == '"' {
        seq!['\\', '"']
    } else if c == '\\' {
        seq!['\\', '\\']
    } else if c == '\u{8}' {
        seq!['\\', 'b']
    } else if c == '\t' {
        seq!['\\', 't']
    } else if c == '\n' {
        seq!['\\', 'n']
    } else if c == '\u{c}' {
        seq!['\\', 'f']
    } else if c == '\r' {
        seq!['\\', 'r']
    } else if (c as u32) < 0x20 {
        seq!['\\', 'u', '0', '0', hex_digit((c as u32 / 16) as nat), hex_digit((c as u32 % 16) as nat)]
    } else {
        seq![c]
    }
}

/// The characters of a JSON string's body.
pub open spec fn json_body(s: Seq<char>) -> Seq<char>
    decreases s.len(),
{
    if s.len() == 0 {
        Seq::empty()
    } else {
        json_body(s.drop_last()) + json_char(s.last())
    }
}

/// Calls `serde_json::to_string` on a string: the string as a JSON literal
/// — between quotes, with a quote, a backslash and each control character
/// escaped (`format_escaped_str_contents` and its `ESCAPE` table). It never
/// fails on a string.
#[verifier::external_body]
pub(crate) fn json_quote(s: &str) -> (r: String)
    ensures
        r@ == seq!['"'] + json_body(s@) + seq!['"'],
{
    serde_json::to_string(s).unwrap_or_default()
}

/// Each `<` as the JavaScript escape `\u003C`.
pub open spec fn defuse_tags(s: Seq<char>) -> Seq<char>
    decreases s.len(),
{
    if s.len() == 0 {
        Seq::empty()
    } else {
        defuse_tags(s.drop_last()) + if s.last() == '<' {
            "\\u003C"@
        } else {
            seq![s.last()]
        }
    }
}

/// A string as a JavaScript literal, safe to sit inside a `<script>` block:
/// JSON quoting, and every `<` escaped so that the HTML parser finds no
/// `</script` or `<!--` to act on.
pub fn js_string(s: &str) -> (r: String)
    ensures
        r@ == defuse_tags(seq!['"'] + json_body(s@) + seq!['"']),
{
    let quoted = json_quote(s);
    let q = crate::text::chars_of(quoted.as_str());
    let mut out: Vec<char> = Vec::new();
    let mut i: usize = 0;
    while i < q.len()
        invariant
            i <= q@.len(),
            out@ == defuse_tags(q@.take(i as int)),
        decreases q@.len() - i,
    {
        assert(q@.take(i + 1).drop_last() =~= q@.take(i as int));
        assert(q@.take(i + 1).last() == q@[i as int]);
        if q[i] == '<' {
            crate::text::push_str(&mut out, "\\u003C");
        } else {
            out.push(q[i]);
        }
        i = i + 1;
        assert(out@ =~= defuse_tags(q@.take(i as int)));
    }
    assert(q@.take(q@.len() as int) =~= q@);
    crate::text::string_of(&out)
}

} // verus!
