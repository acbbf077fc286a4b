//! Escaping, splitting and folding of text: XML, HTML and CSV escapes, the
//! Latin-1 text of an embedded PDF font, hexadecimal, splitting on white
//! space or on a separator, and word wrapping.

use vstd::prelude::*;
use crate::text::{is_ws, push_str};

verus! {

/// The character-by-character rewrites the output formats need.
#[derive(Debug, Clone, Copy, PartialEq, Eq, Structural)]
pub enum Escape {
    /// `& < > " '` as XML entities.
    Xml,
    /// `& < > "` as HTML entities.
    Html,
    /// `& < >` as HTML entities (text between tags).
    HtmlText,
    /// A double quote doubled, as inside a quoted CSV field.
    CsvQuote,
    /// What the WinAnsi (Latin-1) text of an embedded font cannot show,
    /// replaced by its nearest ASCII or by `?`.
    Latin1,
}

/// What one character becomes.
pub open spec fn escape_char(kind: Escape, c: char) -> Seq<char> {
    match kind {
        Escape::Xml => if c == '&' {
            "&amp;"@
        } else if c == '<' {
            "&lt;"@
        } else if c == '>' {
            "&gt;"@
        } else if c == '"' {
            "&quot;"@
        } else if c == '\'' {
            "&apos;"@
        } else {
            seq![c]
        },
        Escape::Html => if c == '&' {
            "&amp;"@
        } else if c == '<' {
            "&lt;"@
        } else if c == '>' {
            "&gt;"@
        } else if c == '"' {
            "&quot;"@
        } else {
            seq![c]
        },
        Escape::HtmlText => if c == '&' {
            "&amp;"@
        } else if c == '<' {
            "&lt;"@
        } else if c == '>' {
            "&gt;"@
        } else {
            seq![c]
        },
        Escape::CsvQuote => if c == '"' {
            seq!['"', '"']
        } else {
            seq![c]
        },
        Escape::Latin1 => if c == '\u{2192}' {
            seq!['-', '>']
        } else if c == '\u{2014}' || c == '\u{2013}' {
            seq!['-']
        } else if c == '\u{2026}' {
            seq!['.', '.', '.']
        } else if c == '\u{201C}' || c == '\u{201D}' {
            seq!['"']
        } else if c == '\u{2018}' || c == '\u{2019}' {
            seq!['\'']
        } else if (c as u32) < 256 {
            seq![c]
        } else {
            seq!['?']
        },
    }
}

/// Every character of `s` rewritten, in order.
pub open spec fn escaped(kind: Escape, s: Seq<char>) -> Seq<char>
    decreases s.len(),
{
    if s.len() == 0 {
        Seq::empty()
    } else {
        escaped(kind, s.drop_last()) + escape_char(kind, s.last())
    }
}

/// Escaping distributes over concatenation.
pub proof fn lemma_escaped_append(kind: Escape, a: Seq<char>, b: Seq<char>)
    ensures
        escaped(kind, a + b) == escaped(kind, a) + escaped(kind, b),
    decreases b.len(),
{
    if b.len() == 0 {
        assert(a + b =~= a);
        assert(escaped(kind, a) + escaped(kind, b) =~= escaped(kind, a));
    } else {
        lemma_escaped_append(kind, a, b.drop_last());
        assert((a + b).drop_last() =~= a + b.drop_last());
        assert((a + b).last() == b.last());
        assert(escaped(kind, a) + escaped(kind, b.drop_last()) + escape_char(kind, b.last())
            =~= escaped(kind, a) + (escaped(kind, b.drop_last()) + escape_char(kind, b.last())));
    }
}

/// Text without any character that `kind` rewrites comes out unchanged.
pub proof fn lemma_escaped_identity(kind: Escape, s: Seq<char>)
    requires
        forall|i: int| 0 <= i < s.len() ==> escape_char(kind, #[trigger] s[i]) == seq![s[i]],
    ensures
        escaped(kind, s) == s,
    decreases s.len(),
{
    if s.len() > 0 {
        lemma_escaped_identity(kind, s.drop_last());
        assert(s.drop_last().push(s.last()) =~= s);
        assert(escape_char(kind, s[s.len() - 1]) == seq![s[s.len() - 1]]);
    }
}

fn push_escape_char(out: &mut Vec<char>, kind: Escape, c: char)
    ensures
        final(out)@ == old(out)@ + escape_char(kind, c),
{
    match kind {
        Escape::Xml => {
            if c == '&' {
                push_str(out, "&amp;");
            } else if c == '<' {
                push_str(out, "&lt;");
            } else if c == '>' {
                push_str(out, "&gt;");
            } else if c == '"' {
                push_str(out, "&quot;");
            } else if c == '\'' {
                push_str(out, "&apos;");
            } else {
                out.push(c);
            }
        },
        Escape::Html => {
            if c == '&' {
                push_str(out, "&amp;");
            } else if c == '<' {
                push_str(out, "&lt;");
            } else if c == '>' {
                push_str(out, "&gt;");
            } else if c == '"' {
                push_str(out, "&quot;");
            } else {
                out.push(c);
            }
        },
        Escape::HtmlText => {
            if c == '&' {
                push_str(out, "&amp;");
            } else if c == '<' {
                push_str(out, "&lt;");
            } else if c == '>' {
                push_str(out, "&gt;");
            } else {
                out.push(c);
            }
        },
        Escape::CsvQuote => {
            if c == '"' {
                out.push('"');
                out.push('"');
            } else {
                out.push(c);
            }
        },
        Escape::Latin1 => {
            if c == '\u{2192}' {
                out.push('-');
                out.push('>');
            } else if c == '\u{2014}' || c == '\u{2013}' {
                out.push('-');
            } else if c == '\u{2026}' {
                out.push('.');
                out.push('.');
                out.push('.');
            } else if c == '\u{201C}' || c == '\u{201D}' {
                out.push('"');
            } else if c == '\u{2018}' || c == '\u{2019}' {
                out.push('\'');
            } else if (c as u32) < 256 {
                out.push(c);
            } else {
                out.push('?');
            }
        },
    }
    assert(final(out)@ =~= old(out)@ + escape_char(kind, c));
}

/// Appends `s` rewritten by `kind`.
pub fn push_escaped_chars(out: &mut Vec<char>, kind: Escape, s: &Vec<char>)
    ensures
        final(out)@ == old(out)@ + escaped(kind, s@),
{
    let mut i: usize = 0;
    while i < s.len()
        invariant
            i <= s.len(),
            out@ == old(out)@ + escaped(kind, s@.take(i as int)),
        decreases s.len() - i,
    {
        assert(s@.take(i + 1).drop_last() =~= s@.take(i as int));
        push_escape_char(out, kind, s[i]);
        i = i + 1;
    }
    assert(s@.take(s.len() as int) =~= s@);
}

/// Appends the characters of `s` rewritten by `kind`.
pub fn push_escaped_str(out: &mut Vec<char>, kind: Escape, s: &str)
    ensures
        final(out)@ == old(out)@ + escaped(kind, s@),
{
    let v = crate::text::chars_of(s);
    push_escaped_chars(out, kind, &v);
}

/// `s` with `& < > " '` as XML entities (`&` first, so nothing is escaped
/// twice).
pub fn xml_escape(s: &str) -> (r: String)
    ensures
        r@ == escaped(Escape::Xml, s@),
{
    let mut out: Vec<char> = Vec::new();
    push_escaped_str(&mut out, Escape::Xml, s);
    crate::text::string_of(&out)
}

/// `s` with `& < > "` as HTML entities.
pub fn html_escape(s: &str) -> (r: String)
    ensures
        r@ == escaped(Escape::Html, s@),
{
    let mut out: Vec<char> = Vec::new();
    push_escaped_str(&mut out, Escape::Html, s);
    crate::text::string_of(&out)
}

/// Embedded fonts use WinAnsi (Latin-1): replaces whatever does not fit.
pub fn pdf_sanitize(s: &str) -> (r: String)
    ensures
        r@ == escaped(Escape::Latin1, s@),
{
    let mut out: Vec<char> = Vec::new();
    push_escaped_str(&mut out, Escape::Latin1, s);
    crate::text::string_of(&out)
}

/// Whether a CSV field has to be quoted: it holds a comma, a quote or a
/// line break.
pub open spec fn csv_needs_quotes(s: Seq<char>) -> bool {
    exists|i: int| 0 <= i < s.len() && (s[i] == ',' || s[i] == '"' || s[i] == '\n' || s[i] == '\r')
}

/// A CSV field: as it is, or between quotes with its quotes doubled.
pub open spec fn csv_field_text(s: Seq<char>) -> Seq<char> {
    if csv_needs_quotes(s) {
        seq!['"'] + escaped(Escape::CsvQuote, s) + seq!['"']
    } else {
        s
    }
}

fn needs_quotes(s: &Vec<char>) -> (r: bool)
    ensures
        r == csv_needs_quotes(s@),
{
    let mut i: usize = 0;
    while i < s.len()
        invariant
            i <= s.len(),
            forall|j: int|
                0 <= j < i ==> !(s@[j] == ',' || s@[j] == '"' || s@[j] == '\n' || s@[j] == '\r'),
        decreases s.len() - i,
    {
        let c = s[i];
        if c == ',' || c == '"' || c == '\n' || c == '\r' {
            return true;
        }
        i = i + 1;
    }
    false
}

/// Appends `s` as a CSV field.
pub fn push_csv_field(out: &mut Vec<char>, s: &str)
    ensures
        final(out)@ == old(out)@ + csv_field_text(s@),
{
    let v = crate::text::chars_of(s);
    if needs_quotes(&v) {
        out.push('"');
        push_escaped_chars(out, Escape::CsvQuote, &v);
        out.push('"');
        assert(final(out)@ =~= old(out)@ + csv_field_text(s@));
    } else {
        crate::text::push_all(out, &v);
    }
}

/// Escapes a CSV field (doubled quotes; wraps it if it has `,` `"` or a
/// line break). `parse_csv` reads such fields back unchanged
/// (`crate::datans::lemma_csv_round_trip`).
pub fn csv_field(field: &str) -> (r: String)
    ensures
        r@ == csv_field_text(field@),
{
    let mut out: Vec<char> = Vec::new();
    push_csv_field(&mut out, field);
    crate::text::string_of(&out)
}

/// The lower-case hexadecimal digit of a value below sixteen.
pub open spec fn hex_digit(d: nat) -> char {
    if d < 10 {
        ((d + '0' as nat) as u32) as char
    } else {
        ((d - 10 + 'a' as nat) as u32) as char
    }
}

/// Two lower-case hexadecimal digits per byte (`{:02x}`).
pub open spec fn hex_text(bytes: Seq<u8>) -> Seq<char>
    decreases bytes.len(),
{
    if bytes.len() == 0 {
        Seq::empty()
    } else {
        hex_text(bytes.drop_last()) + seq![
            hex_digit((bytes.last() / 16) as nat),
            hex_digit((bytes.last() % 16) as nat),
        ]
    }
}

fn hex_char(d: u8) -> (c: char)
    requires
        d < 16,
    ensures
        c == hex_digit(d as nat),
{
    let cs: [char; 16] = [
        '0', '1', '2', '3', '4', '5', '6', '7', '8', '9', 'a', 'b', 'c', 'd', 'e', 'f',
    ];
    let c = cs[d as usize];
    assert(c == hex_digit(d as nat)) by {
        assert(d == 0 || d == 1 || d == 2 || d == 3 || d == 4 || d == 5 || d == 6 || d == 7 || d
            == 8 || d == 9 || d == 10 || d == 11 || d == 12 || d == 13 || d == 14 || d == 15);
    }
    c
}

/// The bytes in lower-case hexadecimal, two digits each.
pub fn hex(bytes: &[u8]) -> (r: String)
    ensures
        r@ == hex_text(bytes@),
{
    let mut out: Vec<char> = Vec::new();
    let mut i: usize = 0;
    while i < bytes.len()
        invariant
            i <= bytes@.len(),
            out@ == hex_text(bytes@.take(i as int)),
        decreases bytes@.len() - i,
    {
        assert(bytes@.take(i + 1).drop_last() =~= bytes@.take(i as int));
        let b = bytes[i];
        out.push(hex_char(b / 16));
        out.push(hex_char(b % 16));
        i = i + 1;
        assert(out@ =~= hex_text(bytes@.take(i as int)));
    }
    assert(bytes@.take(bytes@.len() as int) =~= bytes@);
    crate::text::string_of(&out)
}

/// The white-space separated words of `s` (`str::split_whitespace`),
/// given the word being read so far.
pub open spec fn words_from(s: Seq<char>, current: Seq<char>) -> Seq<Seq<char>>
    decreases s.len(),
{
    if s.len() == 0 {
        if current.len() > 0 {
            seq![current]
        } else {
            Seq::empty()
        }
    } else if is_ws(s[0]) {
        if current.len() > 0 {
            seq![current] + words_from(s.drop_first(), Seq::empty())
        } else {
            words_from(s.drop_first(), Seq::empty())
        }
    } else {
        words_from(s.drop_first(), current.push(s[0]))
    }
}

/// The maximal runs of non-white-space characters of `s`, in order.
pub open spec fn split_ws(s: Seq<char>) -> Seq<Seq<char>> {
    words_from(s, Seq::empty())
}

/// The views of a sequence of character vectors.
pub open spec fn char_vecs_view(v: Seq<Vec<char>>) -> Seq<Seq<char>> {
    v.map_values(|w: Vec<char>| w@)
}

/// `str::split_whitespace`, collected.
pub fn split_whitespace(s: &Vec<char>) -> (r: Vec<Vec<char>>)
    ensures
        char_vecs_view(r@) == split_ws(s@),
{
    let mut out: Vec<Vec<char>> = Vec::new();
    let mut cur: Vec<char> = Vec::new();
    let mut i: usize = 0;
    assert(s@.skip(0) =~= s@);
    assert(char_vecs_view(out@) + words_from(s@, cur@) =~= words_from(s@, Seq::empty()));
    while i < s.len()
        invariant
            i <= s.len(),
            char_vecs_view(out@) + words_from(s@.skip(i as int), cur@) == split_ws(s@),
        decreases s.len() - i,
    {
        let ghost rest = s@.skip(i as int);
        assert(rest.drop_first() =~= s@.skip(i + 1));
        assert(rest[0] == s@[i as int]);
        let c = s[i];
        if crate::text::char_is_ws(c) {
            if cur.len() > 0 {
                let ghost prev = char_vecs_view(out@);
                let done = cur;
                cur = Vec::new();
                out.push(done);
                assert(char_vecs_view(out@) =~= prev.push(done@));
                assert(prev + (seq![done@] + words_from(s@.skip(i + 1), Seq::empty()))
                    =~= prev.push(done@) + words_from(s@.skip(i + 1), cur@));
            } else {
                assert(cur@ =~= Seq::<char>::empty());
            }
        } else {
            cur.push(c);
        }
        i = i + 1;
    }
    assert(s@.skip(s.len() as int) =~= Seq::<char>::empty());
    let ghost prev = char_vecs_view(out@);
    if cur.len() > 0 {
        let ghost last = cur@;
        out.push(cur);
        assert(char_vecs_view(out@) =~= prev.push(last));
        assert(prev + seq![last] =~= prev.push(last));
    } else {
        assert(prev + Seq::<Seq<char>>::empty() =~= prev);
    }
    out
}

/// The pieces of `s` between the separators `c` (`str::split`), given the
/// piece being read so far.
pub open spec fn split_from(s: Seq<char>, c: char, current: Seq<char>) -> Seq<Seq<char>>
    decreases s.len(),
{
    if s.len() == 0 {
        seq![current]
    } else if s[0] == c {
        seq![current] + split_from(s.drop_first(), c, Seq::empty())
    } else {
        split_from(s.drop_first(), c, current.push(s[0]))
    }
}

/// The pieces of `s` between the separators `c`: one more than there are
/// separators, empty ones included.
pub open spec fn split_char(s: Seq<char>, c: char) -> Seq<Seq<char>> {
    split_from(s, c, Seq::empty())
}

/// `str::split` on one character, collected.
pub fn split_on(s: &Vec<char>, c: char) -> (r: Vec<Vec<char>>)
    ensures
        char_vecs_view(r@) == split_char(s@, c),
{
    let mut out: Vec<Vec<char>> = Vec::new();
    let mut cur: Vec<char> = Vec::new();
    let mut i: usize = 0;
    assert(s@.skip(0) =~= s@);
    assert(char_vecs_view(out@) + split_from(s@, c, cur@) =~= split_from(s@, c, Seq::empty()));
    while i < s.len()
        invariant
            i <= s.len(),
            char_vecs_view(out@) + split_from(s@.skip(i as int), c, cur@) == split_char(s@, c),
        decreases s.len() - i,
    {
        let ghost rest = s@.skip(i as int);
        assert(rest.drop_first() =~= s@.skip(i + 1));
        assert(rest[0] == s@[i as int]);
        let x = s[i];
        if x == c {
            let ghost prev = char_vecs_view(out@);
            let done = cur;
            cur = Vec::new();
            out.push(done);
            assert(char_vecs_view(out@) =~= prev.push(done@));
            assert(prev + (seq![done@] + split_from(s@.skip(i + 1), c, Seq::empty()))
                =~= prev.push(done@) + split_from(s@.skip(i + 1), c, cur@));
        } else {
            cur.push(x);
        }
        i = i + 1;
    }
    assert(s@.skip(s.len() as int) =~= Seq::<char>::empty());
    let ghost prev = char_vecs_view(out@);
    let ghost last = cur@;
    out.push(cur);
    assert(char_vecs_view(out@) =~= prev.push(last));
    assert(prev + seq![last] =~= prev.push(last));
    out
}

/// The lines of a greedy wrap at `width` characters: a word goes on the
/// current line when it fits after a space, else it starts the next line.
pub open spec fn wrap_words(words: Seq<Seq<char>>, width: nat, done: Seq<Seq<char>>, line: Seq<char>) -> Seq<Seq<char>>
    decreases words.len(),
{
    if words.len() == 0 {
        if line.len() > 0 || done.len() == 0 {
            done.push(line)
        } else {
            done
        }
    } else {
        let word = words[0];
        let breaks = line.len() > 0 && line.len() + 1 + word.len() > width;
        let done2 = if breaks { done.push(line) } else { done };
        let line2: Seq<char> = if breaks { Seq::empty() } else { line };
        let line3 = if line2.len() > 0 { line2 + seq![' '] + word } else { line2 + word };
        wrap_words(words.drop_first(), width, done2, line3)
    }
}

/// The wrapped lines of `text`; an empty text is one empty line.
pub open spec fn wrapped(text: Seq<char>, width: nat) -> Seq<Seq<char>> {
    wrap_words(split_ws(text), width, Seq::empty(), Seq::empty())
}

/// Wraps on word boundaries into lines of at most `width` characters (a
/// longer word stands alone on its line).
pub fn wrap_text(text: &str, width: usize) -> (r: Vec<String>)
    ensures
        crate::ast::strings_view(r@) == wrapped(text@, width as nat),
{
    let chars = crate::text::chars_of(text);
    let words = split_whitespace(&chars);
    let ghost ws = split_ws(chars@);
    let mut out: Vec<String> = Vec::new();
    let mut line: Vec<char> = Vec::new();
    let mut i: usize = 0;
    assert(ws.skip(0) =~= ws);
    assert(crate::ast::strings_view(out@) =~= Seq::<Seq<char>>::empty());
    assert(line@ =~= Seq::<char>::empty());
    while i < words.len()
        invariant
            i <= words@.len(),
            char_vecs_view(words@) == ws,
            ws == split_ws(text@),
            wrap_words(ws.skip(i as int), width as nat, crate::ast::strings_view(out@), line@)
                == wrapped(text@, width as nat),
        decreases words@.len() - i,
    {
        let ghost before = crate::ast::strings_view(out@);
        assert(ws.len() == words@.len());
        assert(ws.skip(i as int)[0] == ws[i as int]);
        assert(ws[i as int] == words@[i as int]@);
        assert(ws.skip(i as int).drop_first() =~= ws.skip(i + 1));
        let word = &words[i];
        let ghost old_line = line@;
        let breaks = line.len() > 0 && (word.len() >= width || line.len() > width - 1 - word.len());
        assert(breaks == (old_line.len() > 0 && old_line.len() + 1 + word@.len() > width));
        if breaks {
            let s = crate::text::string_of(&line);
            out.push(s);
            line = Vec::new();
            assert(crate::ast::strings_view(out@) =~= before.push(s@));
        }
        if line.len() > 0 {
            line.push(' ');
        }
        crate::text::push_all(&mut line, word);
        proof {
            let line2: Seq<char> = if breaks { Seq::empty() } else { old_line };
            let line3 = if line2.len() > 0 { line2 + seq![' '] + word@ } else { line2 + word@ };
            assert(line@ =~= line3);
        }
        i = i + 1;
    }
    assert(ws.skip(words@.len() as int) =~= Seq::<Seq<char>>::empty());
    if line.len() > 0 || out.len() == 0 {
        let ghost before = crate::ast::strings_view(out@);
        let s = crate::text::string_of(&line);
        out.push(s);
        assert(crate::ast::strings_view(out@) =~= before.push(s@));
    }
    out
}


// ---------------------------------------------------------------------------
// What the markup escapes keep.
// ---------------------------------------------------------------------------

/// The text an entity-escaped string stands for: `&amp;`, `&lt;`, `&gt;`,
/// `&quot;` and `&apos;` read as the character they name, anything else as
/// itself.
pub open spec fn unescape_markup(t: Seq<char>) -> Seq<char>
    decreases t.len(),
{
    if t.len() == 0 {
        seq![]
    } else if t.len() >= 5 && t.take(5) == "&amp;"@ {
        seq!['&'] + unescape_markup(t.skip(5))
    } else if t.len() >= 4 && t.take(4) == "&lt;"@ {
        seq!['<'] + unescape_markup(t.skip(4))
    } else if t.len() >= 4 && t.take(4) == "&gt;"@ {
        seq!['>'] + unescape_markup(t.skip(4))
    } else if t.len() >= 6 && t.take(6) == "&quot;"@ {
        seq!['"'] + unescape_markup(t.skip(6))
    } else if t.len() >= 6 && t.take(6) == "&apos;"@ {
        seq!['\''] + unescape_markup(t.skip(6))
    } else {
        seq![t[0]] + unescape_markup(t.drop_first())
    }
}

proof fn lemma_escaped_front(kind: Escape, s: Seq<char>)
    requires
        s.len() > 0,
    ensures
        escaped(kind, s) == escape_char(kind, s[0]) + escaped(kind, s.drop_first()),
{
    lemma_escaped_append(kind, seq![s[0]], s.drop_first());
    assert(seq![s[0]] + s.drop_first() =~= s);
    assert(seq![s[0]].drop_last() =~= Seq::<char>::empty());
    assert(escaped(kind, Seq::<char>::empty()) == Seq::<char>::empty());
    assert(escaped(kind, seq![s[0]]) =~= escape_char(kind, s[0]));
}

proof fn lemma_unescape_one(kind: Escape, c: char, rest: Seq<char>)
    requires
        kind == Escape::Xml || kind == Escape::Html || kind == Escape::HtmlText,
    ensures
        unescape_markup(escape_char(kind, c) + rest) == seq![c] + unescape_markup(rest),
{
    reveal_strlit("&amp;");
    reveal_strlit("&lt;");
    reveal_strlit("&gt;");
    reveal_strlit("&quot;");
    reveal_strlit("&apos;");
    let e = escape_char(kind, c);
    let t = e + rest;
    let n = e.len() as int;
    assert(t.skip(n) =~= rest);
    assert(t.take(n) =~= e);
    if n == 1 {
        assert(e == seq![c]);
        assert(c != '&');
        assert(t[0] == c);
        assert(t.drop_first() =~= rest);
        if t.len() >= 4 {
            assert(t.take(4)[0] == c);
        }
        if t.len() >= 5 {
            assert(t.take(5)[0] == c);
        }
        if t.len() >= 6 {
            assert(t.take(6)[0] == c);
        }
    } else if c == '&' {
        assert(t.take(5) =~= "&amp;"@);
    } else if c == '<' {
        assert(t.take(4) =~= "&lt;"@);
        if t.len() >= 5 {
            assert(t.take(5)[1] == 'l');
        }
    } else if c == '>' {
        assert(t.take(4) =~= "&gt;"@);
        assert(t.take(4)[1] == 'g');
        if t.len() >= 5 {
            assert(t.take(5)[1] == 'g');
        }
    } else if c == '"' {
        assert(t.take(6) =~= "&quot;"@);
        assert(t.take(4)[1] == 'q');
        assert(t.take(5)[1] == 'q');
    } else {
        assert(c == '\'');
        assert(t.take(6) =~= "&apos;"@);
        assert(t.take(4)[1] == 'a' && t.take(4)[2] == 'p');
        assert(t.take(5)[1] == 'a' && t.take(5)[2] == 'p');
        assert(t.take(6)[1] == 'a' && t.take(6)[2] == 'p');
    }
}

/// The markup escapes lose nothing and leave nothing raw: the XML escape of
/// any text holds no `<`, `>`, `"` or `'`, the HTML escape no `<`, `>` or
/// `"`, the escape for text between tags no `<` or `>`; and reading the
/// entities back gives the text again.
pub proof fn lemma_markup_escape_round_trip(kind: Escape, s: Seq<char>)
    requires
        kind == Escape::Xml || kind == Escape::Html || kind == Escape::HtmlText,
    ensures
        unescape_markup(escaped(kind, s)) == s,
        !escaped(kind, s).contains('<'),
        !escaped(kind, s).contains('>'),
        kind != Escape::HtmlText ==> !escaped(kind, s).contains('"'),
        kind == Escape::Xml ==> !escaped(kind, s).contains('\''),
    decreases s.len(),
{
    if s.len() == 0 {
        assert(escaped(kind, s) == Seq::<char>::empty());
        assert(unescape_markup(Seq::<char>::empty()) == Seq::<char>::empty());
    } else {
        lemma_escaped_front(kind, s);
        lemma_markup_escape_round_trip(kind, s.drop_first());
        lemma_unescape_one(kind, s[0], escaped(kind, s.drop_first()));
        assert(seq![s[0]] + s.drop_first() =~= s);
        reveal_strlit("&amp;");
        reveal_strlit("&lt;");
        reveal_strlit("&gt;");
        reveal_strlit("&quot;");
        reveal_strlit("&apos;");
        let e = escape_char(kind, s[0]);
        let r = escaped(kind, s.drop_first());
        assert forall|x: char| (x == '<' || x == '>' || (kind != Escape::HtmlText && x == '"') || (kind
            == Escape::Xml && x == '\'')) implies !(e + r).contains(x) by {
            if (e + r).contains(x) {
                let k = choose|k: int| 0 <= k < (e + r).len() && (e + r)[k] == x;
                if k < e.len() {
                    assert(e[k] == x);
                } else {
                    assert(r[k - e.len()] == x);
                    assert(r.contains(x));
                }
            }
        }
    }
}


/// The value of a lower-case hexadecimal digit.
pub open spec fn hex_value(c: char) -> int {
    if '0' <= c <= '9' {
        c as int - '0' as int
    } else {
        c as int - 'a' as int + 10
    }
}

proof fn lemma_hex_digit(d: nat)
    requires
        d < 16,
    ensures
        ('0' <= hex_digit(d) <= '9') || ('a' <= hex_digit(d) <= 'f'),
        hex_value(hex_digit(d)) == d,
{
    if d < 10 {
        assert(((d + '0' as nat) as u32) as char as int == d + 48);
    } else {
        assert(((d - 10 + 'a' as nat) as u32) as char as int == d - 10 + 97);
    }
}

/// The hexadecimal text of bytes is two lower-case digits per byte, high
/// half first, and reads back as the bytes.
pub proof fn lemma_hex_text_reads_back(bytes: Seq<u8>)
    ensures
        hex_text(bytes).len() == 2 * bytes.len(),
        forall|i: int| 0 <= i < hex_text(bytes).len() ==> ('0' <= #[trigger] hex_text(bytes)[i] <= '9') || ('a'
            <= hex_text(bytes)[i] <= 'f'),
        forall|i: int| 0 <= i < bytes.len() ==> 16 * hex_value(#[trigger] hex_text(bytes)[2 * i]) + hex_value(
            hex_text(bytes)[2 * i + 1],
        ) == bytes[i],
    decreases bytes.len(),
{
    if bytes.len() > 0 {
        let init = bytes.drop_last();
        let b = bytes.last();
        lemma_hex_text_reads_back(init);
        lemma_hex_digit((b / 16) as nat);
        lemma_hex_digit((b % 16) as nat);
        let t = hex_text(bytes);
        let h = hex_text(init);
        assert(t == h + seq![hex_digit((b / 16) as nat), hex_digit((b % 16) as nat)]);
        assert forall|i: int| 0 <= i < t.len() implies ('0' <= #[trigger] t[i] <= '9') || ('a' <= t[i] <= 'f') by {
            if i < h.len() {
                assert(t[i] == h[i]);
            }
        }
        assert forall|i: int| 0 <= i < bytes.len() implies 16 * hex_value(#[trigger] t[2 * i]) + hex_value(
            t[2 * i + 1],
        ) == bytes[i] by {
            if i < init.len() {
                assert(t[2 * i] == h[2 * i]);
                assert(t[2 * i + 1] == h[2 * i + 1]);
                assert(init[i] == bytes[i]);
            } else {
                assert(i == init.len());
                assert(16 * (b / 16) + b % 16 == b);
            }
        }
    }
}


/// A line that fits in `width` or is a single word.
pub open spec fn line_fits(line: Seq<char>, width: nat) -> bool {
    line.len() <= width || !line.contains(' ')
}

proof fn lemma_words_have_no_space(s: Seq<char>, current: Seq<char>)
    requires
        !current.contains(' '),
    ensures
        forall|i: int| 0 <= i < words_from(s, current).len() ==> !(#[trigger] words_from(s, current)[i]).contains(' '),
    decreases s.len(),
{
    if s.len() > 0 {
        if is_ws(s[0]) {
            assert(!Seq::<char>::empty().contains(' '));
            lemma_words_have_no_space(s.drop_first(), Seq::empty());
            let rest = words_from(s.drop_first(), Seq::empty());
            if current.len() == 0 {
                assert(words_from(s, current) == rest);
            } else {
                assert(words_from(s, current) == seq![current] + rest);
                assert forall|i: int| 0 <= i < (seq![current] + rest).len() implies !(#[trigger] (seq![current]
                    + rest)[i]).contains(' ') by {
                    if i > 0 {
                        assert((seq![current] + rest)[i] == rest[i - 1]);
                    }
                }
            }
        } else {
            assert(!current.push(s[0]).contains(' ')) by {
                if current.push(s[0]).contains(' ') {
                    let k = choose|k: int| 0 <= k < current.push(s[0]).len() && current.push(s[0])[k] == ' ';
                    if k < current.len() {
                        assert(current[k] == ' ');
                        assert(current.contains(' '));
                    } else {
                        assert(s[0] == ' ');
                    }
                }
            }
            lemma_words_have_no_space(s.drop_first(), current.push(s[0]));
            assert(words_from(s, current) == words_from(s.drop_first(), current.push(s[0])));
        }
    } else {
        if current.len() > 0 {
            assert(words_from(s, current) == seq![current]);
            assert(seq![current][0] == current);
        } else {
            assert(words_from(s, current) == Seq::<Seq<char>>::empty());
        }
    }
}

proof fn lemma_wrap_lines_fit(words: Seq<Seq<char>>, width: nat, done: Seq<Seq<char>>, line: Seq<char>)
    requires
        forall|i: int| 0 <= i < words.len() ==> !(#[trigger] words[i]).contains(' '),
        forall|i: int| 0 <= i < done.len() ==> line_fits(#[trigger] done[i], width),
        line_fits(line, width),
    ensures
        forall|i: int| 0 <= i < wrap_words(words, width, done, line).len() ==> line_fits(
            #[trigger] wrap_words(words, width, done, line)[i],
            width,
        ),
    decreases words.len(),
{
    if words.len() == 0 {
        assert forall|i: int| 0 <= i < done.push(line).len() implies line_fits(#[trigger] done.push(line)[i], width) by {
            if i < done.len() {
                assert(done.push(line)[i] == done[i]);
            }
        }
        if line.len() > 0 || done.len() == 0 {
            assert(wrap_words(words, width, done, line) == done.push(line));
        } else {
            assert(wrap_words(words, width, done, line) == done);
        }
    } else {
        let word = words[0];
        assert(!word.contains(' '));
        let breaks = line.len() > 0 && line.len() + 1 + word.len() > width;
        let done2 = if breaks { done.push(line) } else { done };
        let line2: Seq<char> = if breaks { Seq::empty() } else { line };
        let line3 = if line2.len() > 0 { line2 + seq![' '] + word } else { line2 + word };
        assert forall|i: int| 0 <= i < done2.len() implies line_fits(#[trigger] done2[i], width) by {
            if i < done.len() {
                assert(done2[i] == done[i]);
            }
        }
        if line2.len() == 0 {
            assert(line3 =~= word);
        }
        assert(line_fits(line3, width));
        assert forall|i: int| 0 <= i < words.drop_first().len() implies !(#[trigger] words.drop_first()[i]).contains(
            ' ',
        ) by {
            assert(words.drop_first()[i] == words[i + 1]);
        }
        lemma_wrap_lines_fit(words.drop_first(), width, done2, line3);
        assert(wrap_words(words, width, done, line) == wrap_words(words.drop_first(), width, done2, line3));
    }
}

/// Wrapping keeps lines within the width: every line of the wrapped text
/// is at most `width` characters long, or else a single word too long to
/// fit on any line.
pub proof fn lemma_wrapped_lines_fit(text: Seq<char>, width: nat)
    ensures
        forall|i: int| 0 <= i < wrapped(text, width).len() ==> (#[trigger] wrapped(text, width)[i]).len() <= width
            || !wrapped(text, width)[i].contains(' '),
{
    lemma_words_have_no_space(text, Seq::empty());
    assert(!Seq::<char>::empty().contains(' '));
    lemma_wrap_lines_fit(split_ws(text), width, Seq::empty(), Seq::empty());
}

} // verus!
