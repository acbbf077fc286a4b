//! The text rules behind the `text::` functions of the language: word
//! splitting and normalisation, the Brazilian CPF and CNPJ check digits,
//! calendar dates, and a stop-word guess at the language of a text.

use vstd::prelude::*;
use crate::cli::{parse_i64, parse_int};
use crate::escape::{char_vecs_view, split_char, split_on, split_whitespace, split_ws};
use crate::fixns::RuntimeError;
use crate::text::{alphanumeric, char_is_alphanumeric, digit_value, is_digit, lowercase, string_of};

verus! {

/// `s` joined with single spaces.
pub open spec fn join_spaces(words: Seq<Seq<char>>) -> Seq<char>
    decreases words.len(),
{
    if words.len() == 0 {
        Seq::empty()
    } else if words.len() == 1 {
        words[0]
    } else {
        join_spaces(words.drop_last()) + seq![' '] + words.last()
    }
}

/// Lower case, with runs of white space collapsed to one space and none at
/// either end.
pub open spec fn spec_normalize(text: Seq<char>) -> Seq<char> {
    lowercase(join_spaces(split_ws(text)))
}

fn join_words(words: &Vec<Vec<char>>) -> (r: Vec<char>)
    ensures
        r@ == join_spaces(char_vecs_view(words@)),
{
    let mut out: Vec<char> = Vec::new();
    let mut i: usize = 0;
    while i < words.len()
        invariant
            i <= words@.len(),
            out@ == join_spaces(char_vecs_view(words@).take(i as int)),
        decreases words@.len() - i,
    {
        let ghost v = char_vecs_view(words@);
        assert(v.take(i + 1).drop_last() =~= v.take(i as int));
        assert(v.take(i + 1).last() == words@[i as int]@);
        if i > 0 {
            out.push(' ');
        } else {
            assert(v.take(1) =~= seq![words@[0]@]);
        }
        crate::text::push_all(&mut out, &words[i]);
        i = i + 1;
    }
    assert(char_vecs_view(words@).take(words@.len() as int) =~= char_vecs_view(words@));
    out
}

/// Normalization: lowercase and collapsed white space.
pub fn normalize(text: &str) -> (r: String)
    ensures
        r@ == spec_normalize(text@),
{
    let chars = crate::text::chars_of(text);
    let words = split_whitespace(&chars);
    let joined = join_words(&words);
    let lower = crate::text::to_lowercase(&joined);
    string_of(&lower)
}

/// `s` without the characters that are not alphanumeric at its start.
pub open spec fn strip_start(s: Seq<char>) -> Seq<char>
    decreases s.len(),
{
    if s.len() > 0 && !alphanumeric(s[0]) {
        strip_start(s.drop_first())
    } else {
        s
    }
}

/// `s` without the characters that are not alphanumeric at its end.
pub open spec fn strip_end(s: Seq<char>) -> Seq<char>
    decreases s.len(),
{
    if s.len() > 0 && !alphanumeric(s.last()) {
        strip_end(s.drop_last())
    } else {
        s
    }
}

/// A word without the punctuation at its edges
/// (`trim_matches(|c| !c.is_alphanumeric())`).
pub open spec fn edge_trim(s: Seq<char>) -> Seq<char> {
    strip_end(strip_start(s))
}

fn trim_edges(s: &Vec<char>) -> (r: Vec<char>)
    ensures
        r@ == edge_trim(s@),
{
    let mut a: usize = 0;
    assert(s@.subrange(0, s@.len() as int) =~= s@);
    while a < s.len() && !char_is_alphanumeric(s[a])
        invariant
            a <= s.len(),
            strip_start(s@) == strip_start(s@.subrange(a as int, s@.len() as int)),
        decreases s.len() - a,
    {
        assert(s@.subrange(a as int, s@.len() as int).drop_first() =~= s@.subrange(
            a + 1,
            s@.len() as int,
        ));
        a = a + 1;
    }
    assert(a == 0 ==> s@.subrange(0, s@.len() as int) =~= s@);
    let mut b: usize = s.len();
    while b > a && !char_is_alphanumeric(s[b - 1])
        invariant
            a <= b <= s.len(),
            strip_end(s@.subrange(a as int, s@.len() as int)) == strip_end(
                s@.subrange(a as int, b as int),
            ),
        decreases b - a,
    {
        assert(s@.subrange(a as int, b as int).drop_last() =~= s@.subrange(a as int, b - 1));
        b = b - 1;
    }
    crate::text::slice_chars(s, a, b)
}

/// The words of a text: split on white space, punctuation at their edges
/// removed, and those left empty dropped.
pub open spec fn words_of(ws: Seq<Seq<char>>) -> Seq<Seq<char>>
    decreases ws.len(),
{
    if ws.len() == 0 {
        Seq::empty()
    } else {
        let rest = words_of(ws.drop_last());
        let w = edge_trim(ws.last());
        if w.len() > 0 {
            rest.push(w)
        } else {
            rest
        }
    }
}

/// Words: split on white space, with edge punctuation removed.
pub fn words(text: &str) -> (r: Vec<String>)
    ensures
        crate::ast::strings_view(r@) == words_of(split_ws(text@)),
{
    let chars = crate::text::chars_of(text);
    let ws = split_whitespace(&chars);
    let ghost v = char_vecs_view(ws@);
    let mut out: Vec<String> = Vec::new();
    let mut i: usize = 0;
    while i < ws.len()
        invariant
            i <= ws@.len(),
            v == char_vecs_view(ws@),
            crate::ast::strings_view(out@) == words_of(v.take(i as int)),
        decreases ws@.len() - i,
    {
        assert(v.take(i + 1).drop_last() =~= v.take(i as int));
        assert(v.take(i + 1).last() == ws@[i as int]@);
        let w = trim_edges(&ws[i]);
        if w.len() > 0 {
            let ghost prev = crate::ast::strings_view(out@);
            let s = string_of(&w);
            out.push(s);
            assert(crate::ast::strings_view(out@) =~= prev.push(s@));
        }
        i = i + 1;
    }
    assert(v.take(ws@.len() as int) =~= v);
    out
}

/// The values of the ASCII digits of `s`, in order; everything else is
/// skipped.
pub open spec fn digits_of(s: Seq<char>) -> Seq<nat>
    decreases s.len(),
{
    if s.len() == 0 {
        Seq::empty()
    } else {
        let r = digits_of(s.drop_last());
        if is_digit(s.last()) {
            r.push(digit_value(s.last()))
        } else {
            r
        }
    }
}

proof fn lemma_digits_bounded(s: Seq<char>)
    ensures
        forall|i: int| 0 <= i < digits_of(s).len() ==> #[trigger] digits_of(s)[i] <= 9,
        digits_of(s).len() <= s.len(),
    decreases s.len(),
{
    if s.len() > 0 {
        lemma_digits_bounded(s.drop_last());
    }
}

/// The digits of `s` (`filter_map(|c| c.to_digit(10))`).
pub fn digits(s: &Vec<char>) -> (d: Vec<u32>)
    ensures
        d@.len() == digits_of(s@).len(),
        forall|i: int| 0 <= i < d@.len() ==> d@[i] == #[trigger] digits_of(s@)[i],
        forall|i: int| 0 <= i < d@.len() ==> #[trigger] d@[i] <= 9,
{
    let mut d: Vec<u32> = Vec::new();
    let mut i: usize = 0;
    while i < s.len()
        invariant
            i <= s.len(),
            d@.len() == digits_of(s@.take(i as int)).len(),
            forall|j: int| 0 <= j < d@.len() ==> d@[j] == #[trigger] digits_of(s@.take(i as int))[j],
        decreases s.len() - i,
    {
        assert(s@.take(i + 1).drop_last() =~= s@.take(i as int));
        assert(s@.take(i + 1).last() == s@[i as int]);
        let c = s[i];
        if '0' <= c && c <= '9' {
            d.push((c as u32) - ('0' as u32));
        }
        i = i + 1;
    }
    assert(s@.take(s.len() as int) =~= s@);
    proof {
        lemma_digits_bounded(s@);
        assert forall|i: int| 0 <= i < d@.len() implies #[trigger] d@[i] <= 9 by {
            assert(d@[i] == digits_of(s@)[i]);
        }
    }
    d
}

/// All the digits are the same (`111.111.111-11`).
pub open spec fn all_same(d: Seq<nat>) -> bool {
    forall|i: int| 0 <= i < d.len() ==> #[trigger] d[i] == d[0]
}

fn all_equal(d: &Vec<u32>) -> (r: bool)
    requires
        d@.len() > 0,
    ensures
        r == (forall|i: int| 0 <= i < d@.len() ==> #[trigger] d@[i] == d@[0]),
{
    let mut i: usize = 0;
    while i < d.len()
        invariant
            i <= d@.len(),
            forall|j: int| 0 <= j < i ==> #[trigger] d@[j] == d@[0],
        decreases d@.len() - i,
    {
        if d[i] != d[0] {
            return false;
        }
        i = i + 1;
    }
    true
}

/// `Σ d[i] × (n + 1 − i)` over the first `k` digits.
pub open spec fn cpf_sum(d: Seq<nat>, n: nat, k: nat) -> nat
    decreases k,
{
    if k == 0 {
        0
    } else {
        cpf_sum(d, n, (k - 1) as nat) + d[k - 1] * ((n + 1 - (k - 1)) as nat)
    }
}

/// The CPF check digit over the first `n` digits: ten times the weighted
/// sum, modulo 11, with 10 read as 0.
pub open spec fn cpf_digit(d: Seq<nat>, n: nat) -> nat {
    let r = (cpf_sum(d, n, n) * 10) % 11;
    if r == 10 {
        0
    } else {
        r
    }
}

/// A CPF: eleven digits, not all the same, whose last two are the check
/// digits of the nine and the ten before them.
pub open spec fn spec_cpf_valid(s: Seq<char>) -> bool {
    let d = digits_of(s);
    &&& d.len() == 11
    &&& !all_same(d)
    &&& cpf_digit(d, 9) == d[9]
    &&& cpf_digit(d, 10) == d[10]
}

fn cpf_check(d: &Vec<u32>, n: usize) -> (r: u32)
    requires
        n <= 10,
        n <= d@.len(),
        forall|i: int| 0 <= i < d@.len() ==> #[trigger] d@[i] <= 9,
    ensures
        r == cpf_digit(d@.map_values(|x: u32| x as nat), n as nat),
{
    let ghost dv = d@.map_values(|x: u32| x as nat);
    let mut sum: u32 = 0;
    let mut k: usize = 0;
    while k < n
        invariant
            k <= n <= 10,
            n <= d@.len(),
            dv == d@.map_values(|x: u32| x as nat),
            forall|i: int| 0 <= i < d@.len() ==> #[trigger] d@[i] <= 9,
            sum == cpf_sum(dv, n as nat, k as nat),
            sum <= 99 * k,
        decreases n - k,
    {
        assert(dv[k as int] == d@[k as int]);
        let w: u32 = (n as u32) + 1 - (k as u32);
        assert(d@[k as int] * w <= 99) by (nonlinear_arith)
            requires
                d@[k as int] <= 9,
                w <= 11,
        ;
        sum = sum + d[k] * w;
        k = k + 1;
    }
    let r = (sum * 10) % 11;
    if r == 10 {
        0
    } else {
        r
    }
}

/// CPF with its check digits (mod 11). Accepted with or without
/// punctuation.
pub fn cpf_valid(s: &str) -> (r: bool)
    ensures
        r == spec_cpf_valid(s@),
{
    let chars = crate::text::chars_of(s);
    let d = digits(&chars);
    proof {
        assert(d@.map_values(|x: u32| x as nat) =~= digits_of(s@));
    }
    if d.len() != 11 {
        return false;
    }
    let same = all_equal(&d);
    proof {
        let dv = digits_of(s@);
        assert(d@.map_values(|x: u32| x as nat) == dv);
        if same {
            assert forall|i: int| 0 <= i < dv.len() implies #[trigger] dv[i] == dv[0] by {
                assert(dv[i] == d@[i]);
                assert(d@[i] == d@[0]);
            }
        }
        if all_same(dv) {
            assert forall|i: int| 0 <= i < d@.len() implies #[trigger] d@[i] == d@[0] by {
                assert(dv[i] == dv[0]);
                assert(dv[i] == d@[i]);
            }
        }
    }
    if same {
        return false;
    }
    cpf_check(&d, 9) == d[9] && cpf_check(&d, 10) == d[10]
}

/// The weight of the `j`-th digit from the right of a CNPJ prefix:
/// 2, 3, … 9, then 2 again.
pub open spec fn cnpj_weight(j: nat) -> nat {
    2 + j % 8
}

/// `Σ d[n − 1 − j] × weight(j)` for `j < k`.
pub open spec fn cnpj_sum(d: Seq<nat>, n: nat, k: nat) -> nat
    decreases k,
{
    if k == 0 {
        0
    } else {
        cnpj_sum(d, n, (k - 1) as nat) + d[n - 1 - (k - 1)] * cnpj_weight((k - 1) as nat)
    }
}

/// The CNPJ check digit over the first `n` digits: 0 when the weighted sum
/// leaves less than 2 modulo 11, else 11 minus that remainder.
pub open spec fn cnpj_digit(d: Seq<nat>, n: nat) -> nat {
    let r = cnpj_sum(d, n, n) % 11;
    if r < 2 {
        0
    } else {
        (11 - r) as nat
    }
}

/// A CNPJ: fourteen digits, not all the same, whose last two are the check
/// digits of the twelve and the thirteen before them.
pub open spec fn spec_cnpj_valid(s: Seq<char>) -> bool {
    let d = digits_of(s);
    &&& d.len() == 14
    &&& !all_same(d)
    &&& cnpj_digit(d, 12) == d[12]
    &&& cnpj_digit(d, 13) == d[13]
}

fn cnpj_check(d: &Vec<u32>, n: usize) -> (r: u32)
    requires
        n <= 13,
        n <= d@.len(),
        forall|i: int| 0 <= i < d@.len() ==> #[trigger] d@[i] <= 9,
    ensures
        r == cnpj_digit(d@.map_values(|x: u32| x as nat), n as nat),
{
    let ghost dv = d@.map_values(|x: u32| x as nat);
    let mut sum: u32 = 0;
    let mut k: usize = 0;
    while k < n
        invariant
            k <= n <= 13,
            n <= d@.len(),
            dv == d@.map_values(|x: u32| x as nat),
            forall|i: int| 0 <= i < d@.len() ==> #[trigger] d@[i] <= 9,
            sum == cnpj_sum(dv, n as nat, k as nat),
            sum <= 81 * k,
        decreases n - k,
    {
        let idx = n - 1 - k;
        assert(dv[idx as int] == d@[idx as int]);
        let w: u32 = 2 + (k as u32) % 8;
        assert(d@[idx as int] * w <= 81) by (nonlinear_arith)
            requires
                d@[idx as int] <= 9,
                w <= 9,
        ;
        sum = sum + d[idx] * w;
        k = k + 1;
    }
    let r = sum % 11;
    if r < 2 {
        0
    } else {
        11 - r
    }
}

/// CNPJ with its check digits (mod 11). Accepted with or without
/// punctuation.
pub fn cnpj_valid(s: &str) -> (r: bool)
    ensures
        r == spec_cnpj_valid(s@),
{
    let chars = crate::text::chars_of(s);
    let d = digits(&chars);
    proof {
        assert(d@.map_values(|x: u32| x as nat) =~= digits_of(s@));
    }
    if d.len() != 14 {
        return false;
    }
    let same = all_equal(&d);
    proof {
        let dv = digits_of(s@);
        assert(d@.map_values(|x: u32| x as nat) == dv);
        if same {
            assert forall|i: int| 0 <= i < dv.len() implies #[trigger] dv[i] == dv[0] by {
                assert(dv[i] == d@[i]);
                assert(d@[i] == d@[0]);
            }
        }
        if all_same(dv) {
            assert forall|i: int| 0 <= i < d@.len() implies #[trigger] d@[i] == d@[0] by {
                assert(dv[i] == dv[0]);
                assert(dv[i] == d@[i]);
            }
        }
    }
    if same {
        return false;
    }
    cnpj_check(&d, 12) == d[12] && cnpj_check(&d, 13) == d[13]
}

/// The Portuguese stop words.
pub open spec fn stop_pt() -> Seq<Seq<char>> {
    seq!["de"@, "que"@, "não"@, "uma"@, "para"@, "com"@, "os"@, "das"@, "dos"@, "isso"@, "são"@, "é"@]
}

/// The English stop words.
pub open spec fn stop_en() -> Seq<Seq<char>> {
    seq!["the"@, "of"@, "and"@, "to"@, "in"@, "is"@, "that"@, "it"@, "was"@, "for"@, "with"@, "are"@]
}

/// The Spanish stop words.
pub open spec fn stop_es() -> Seq<Seq<char>> {
    seq!["el"@, "la"@, "los"@, "las"@, "una"@, "por"@, "del"@, "es"@, "en"@, "y"@, "que"@, "para"@]
}

/// A language of the stop-word guess.
#[derive(Debug, Clone, Copy, PartialEq, Eq, Structural)]
pub enum Lang {
    Pt,
    En,
    Es,
}

/// The stop words of a language.
pub open spec fn stop_words(l: Lang) -> Seq<Seq<char>> {
    match l {
        Lang::Pt => stop_pt(),
        Lang::En => stop_en(),
        Lang::Es => stop_es(),
    }
}

/// How many of the words, edge punctuation removed, are stop words of `l`.
pub open spec fn score(ws: Seq<Seq<char>>, l: Lang) -> nat
    decreases ws.len(),
{
    if ws.len() == 0 {
        0
    } else {
        score(ws.drop_last(), l) + if stop_words(l).contains(edge_trim(ws.last())) {
            1nat
        } else {
            0nat
        }
    }
}

/// The guess: the language with the most stop words (Portuguese, then
/// English, then Spanish on a tie), or `unknown` when there is none.
pub open spec fn spec_detect_language(text: Seq<char>) -> Seq<char> {
    let ws = split_ws(lowercase(text));
    let (pt, en, es) = (score(ws, Lang::Pt), score(ws, Lang::En), score(ws, Lang::Es));
    let m1 = if pt >= en { pt } else { en };
    let max = if m1 >= es { m1 } else { es };
    if max == 0 {
        "unknown"@
    } else if pt == max {
        "pt"@
    } else if en == max {
        "en"@
    } else {
        "es"@
    }
}

fn is_stop_word(w: &Vec<char>, l: Lang) -> (r: bool)
    ensures
        r == stop_words(l).contains(w@),
{
    let list: [&str; 12] = match l {
        Lang::Pt => ["de", "que", "não", "uma", "para", "com", "os", "das", "dos", "isso", "são", "é"],
        Lang::En => ["the", "of", "and", "to", "in", "is", "that", "it", "was", "for", "with", "are"],
        Lang::Es => ["el", "la", "los", "las", "una", "por", "del", "es", "en", "y", "que", "para"],
    };
    let ghost words = stop_words(l);
    assert(forall|k: int| 0 <= k < 12 ==> list@[k]@ == #[trigger] words[k]);
    let mut i: usize = 0;
    while i < 12
        invariant
            i <= 12,
            words == stop_words(l),
            words.len() == 12,
            forall|k: int| 0 <= k < 12 ==> list@[k]@ == #[trigger] words[k],
            forall|k: int| 0 <= k < i ==> words[k] != w@,
        decreases 12 - i,
    {
        if crate::text::chars_eq_str(w, list[i]) {
            assert(words[i as int] == w@);
            return true;
        }
        i = i + 1;
    }
    false
}

fn count_stop_words(ws: &Vec<Vec<char>>, l: Lang) -> (n: usize)
    ensures
        n == score(char_vecs_view(ws@), l),
{
    let ghost v = char_vecs_view(ws@);
    let mut n: usize = 0;
    let mut i: usize = 0;
    while i < ws.len()
        invariant
            i <= ws@.len(),
            v == char_vecs_view(ws@),
            n == score(v.take(i as int), l),
            n <= i,
        decreases ws@.len() - i,
    {
        assert(v.take(i + 1).drop_last() =~= v.take(i as int));
        assert(v.take(i + 1).last() == ws@[i as int]@);
        let w = trim_edges(&ws[i]);
        if is_stop_word(&w, l) {
            n = n + 1;
        }
        i = i + 1;
    }
    assert(v.take(ws@.len() as int) =~= v);
    n
}

/// Naive detection by stop words (pt/en/es).
pub fn detect_language(text: &str) -> (r: &'static str)
    ensures
        r@ == spec_detect_language(text@),
{
    let chars = crate::text::chars_of(text);
    let lower = crate::text::to_lowercase(&chars);
    let ws = split_whitespace(&lower);
    let pt = count_stop_words(&ws, Lang::Pt);
    let en = count_stop_words(&ws, Lang::En);
    let es = count_stop_words(&ws, Lang::Es);
    let m1 = if pt >= en { pt } else { en };
    let max = if m1 >= es { m1 } else { es };
    if max == 0 {
        "unknown"
    } else if pt == max {
        "pt"
    } else if en == max {
        "en"
    } else {
        "es"
    }
}

/// Whether `pattern` compiles as a regular expression of the `regex` crate.
pub uninterp spec fn regex_compiles(pattern: Seq<char>) -> bool;

/// Whether the compiled `pattern` matches somewhere in `text`.
pub uninterp spec fn regex_matches(pattern: Seq<char>, text: Seq<char>) -> bool;

/// Calls `regex::Regex::new(pattern)` and, when the pattern compiles,
/// `Regex::is_match(text)`: `None` when the pattern does not compile, else
/// whether there is a match anywhere in `text`. What the pattern language
/// accepts and matches is left to those two names.
#[verifier::external_body]
fn regex_is_match(pattern: &str, text: &str) -> (r: Option<bool>)
    ensures
        r is None <==> !regex_compiles(pattern@),
        r matches Some(b) ==> b == regex_matches(pattern@, text@),
{
    match regex::Regex::new(pattern) {
        Ok(re) => Some(re.is_match(text)),
        Err(_) => None,
    }
}

/// The day-first pattern of a date, `dd/mm/yyyy` with one- or two-digit day
/// and month.
pub open spec fn dmy_pattern() -> Seq<char> {
    "^\\d{1,2}/\\d{1,2}/\\d{4}$"@
}

/// The ISO pattern of a date, `yyyy-mm-dd`.
pub open spec fn iso_pattern() -> Seq<char> {
    "^\\d{4}-\\d{2}-\\d{2}$"@
}

/// `pattern` compiles and matches `text`.
pub open spec fn pattern_hit(pattern: Seq<char>, text: Seq<char>) -> bool {
    regex_compiles(pattern) && regex_matches(pattern, text)
}

/// The view of an optional string.
pub open spec fn opt_view(o: Option<&str>) -> Option<Seq<char>> {
    match o {
        Some(f) => Some(f@),
        None => None,
    }
}

/// The three numbers of `t` split at `sep`, in the order written, when there
/// are exactly three fields and each parses as an `i64`.
pub open spec fn date_numbers(t: Seq<char>, sep: char) -> Option<(int, int, int)> {
    let f = split_char(t, sep);
    if f.len() == 3 {
        match (parse_i64(f[0]), parse_i64(f[1]), parse_i64(f[2])) {
            (Some(a), Some(b), Some(c)) => Some((a, b, c)),
            _ => None,
        }
    } else {
        None
    }
}

/// A leap year of the Gregorian calendar.
pub open spec fn is_leap(y: int) -> bool {
    y % 4 == 0 && (y % 100 != 0 || y % 400 == 0)
}

/// The days of month `m` of year `y`.
pub open spec fn days_in_month(m: int, y: int) -> int {
    if m == 2 {
        if is_leap(y) {
            29
        } else {
            28
        }
    } else if m == 4 || m == 6 || m == 9 || m == 11 {
        30
    } else {
        31
    }
}

/// Day `d` of month `m` of year `y` exists, for a year from 1 to 9999.
pub open spec fn calendar_valid(d: int, m: int, y: int) -> bool {
    1 <= m <= 12 && 1 <= y <= 9999 && 1 <= d <= days_in_month(m, y)
}

/// The text of the error for a date format that is neither of the two.
pub open spec fn unknown_format_text(f: Seq<char>) -> Seq<char> {
    "text::validate_date_format: unknown format '"@ + f + "' (use dd/mm/aaaa or aaaa-mm-dd)"@
}

/// The verdict on the (trimmed) date `t` in the format `format`, given
/// whether the day-first pattern (`dmy`) and the ISO pattern (`iso`) match
/// it. With no format either pattern may apply, the day-first one first;
/// a named format other than the two is an error.
pub open spec fn date_verdict(t: Seq<char>, format: Option<Seq<char>>, dmy: bool, iso: bool) -> Result<bool, Seq<char>> {
    if (format is None || format == Some("dd/mm/aaaa"@)) && dmy {
        Ok(
            match date_numbers(t, '/') {
                Some((d, m, y)) => calendar_valid(d, m, y),
                None => false,
            },
        )
    } else if (format is None || format == Some("aaaa-mm-dd"@)) && iso {
        Ok(
            match date_numbers(t, '-') {
                Some((y, m, d)) => calendar_valid(d, m, y),
                None => false,
            },
        )
    } else if format is Some && format != Some("dd/mm/aaaa"@) && format != Some("aaaa-mm-dd"@) {
        Err(unknown_format_text(format->0))
    } else {
        Ok(false)
    }
}

/// The three numbers of `t` split at `sep`.
fn numbers_of(t: &Vec<char>, sep: char) -> (r: Option<(i64, i64, i64)>)
    ensures
        r matches Some((a, b, c)) ==> date_numbers(t@, sep) == Some((a as int, b as int, c as int)),
        r is None ==> date_numbers(t@, sep) is None,
{
    let f = split_on(t, sep);
    proof {
        assert(char_vecs_view(f@) == split_char(t@, sep));
    }
    if f.len() != 3 {
        return None;
    }
    proof {
        assert(f@[0]@ == split_char(t@, sep)[0]);
        assert(f@[1]@ == split_char(t@, sep)[1]);
        assert(f@[2]@ == split_char(t@, sep)[2]);
    }
    match (parse_int(&f[0]), parse_int(&f[1]), parse_int(&f[2])) {
        (Some(a), Some(b), Some(c)) => Some((a, b, c)),
        _ => None,
    }
}

/// Day `d` of month `m` of year `y` exists, for a year from 1 to 9999.
fn calendar_date(d: i64, m: i64, y: i64) -> (r: bool)
    ensures
        r == calendar_valid(d as int, m as int, y as int),
{
    if m < 1 || m > 12 || y < 1 || y > 9999 {
        return false;
    }
    let leap = y % 4 == 0 && (y % 100 != 0 || y % 400 == 0);
    let max_day: i64 = if m == 2 {
        if leap {
            29
        } else {
            28
        }
    } else if m == 4 || m == 6 || m == 9 || m == 11 {
        30
    } else {
        31
    };
    1 <= d && d <= max_day
}

/// The verdict on the date `t` in the format `format`, given whether the
/// day-first and the ISO patterns match it.
pub fn date_from_matches(t: &str, format: Option<&str>, dmy: bool, iso: bool) -> (r: Result<bool, RuntimeError>)
    ensures
        match date_verdict(t@, opt_view(format), dmy, iso) {
            Ok(b) => r matches Ok(x) && x == b,
            Err(m) => r matches Err(e) && e.message@ == m,
        },
{
    let (day_first, iso_named, other) = match format {
        Some(f) => {
            let fv = crate::text::chars_of(f);
            let a = crate::text::chars_eq_str(&fv, "dd/mm/aaaa");
            let b = crate::text::chars_eq_str(&fv, "aaaa-mm-dd");
            proof {
                assert(a == (f@ == "dd/mm/aaaa"@));
                assert(b == (f@ == "aaaa-mm-dd"@));
            }
            (a, b, !a && !b)
        },
        None => (true, true, false),
    };
    let tv = crate::text::chars_of(t);
    if day_first && dmy {
        let v = match numbers_of(&tv, '/') {
            Some((d, m, y)) => calendar_date(d, m, y),
            None => false,
        };
        Ok(v)
    } else if iso_named && iso {
        let v = match numbers_of(&tv, '-') {
            Some((y, m, d)) => calendar_date(d, m, y),
            None => false,
        };
        Ok(v)
    } else if other {
        let f = match format {
            Some(f) => f,
            None => "",
        };
        let mut out: Vec<char> = Vec::new();
        crate::text::push_str(&mut out, "text::validate_date_format: unknown format '");
        crate::text::push_str(&mut out, f);
        crate::text::push_str(&mut out, "' (use dd/mm/aaaa or aaaa-mm-dd)");
        Err(RuntimeError { message: string_of(&out) })
    } else {
        Ok(false)
    }
}

/// Whether `s`, trimmed, is a calendar-valid date: `dd/mm/yyyy` (format
/// `"dd/mm/aaaa"`), `yyyy-mm-dd` (format `"aaaa-mm-dd"`), or with no format
/// either of the two. Any other format is an error.
pub fn date_valid(s: &str, format: Option<&str>) -> (r: Result<bool, RuntimeError>)
    ensures
        ({
            let t = crate::text::trim(s@);
            match date_verdict(t, opt_view(format), pattern_hit(dmy_pattern(), t), pattern_hit(iso_pattern(), t)) {
                Ok(b) => r matches Ok(x) && x == b,
                Err(m) => r matches Err(e) && e.message@ == m,
            }
        }),
{
    let sv = crate::text::chars_of(s);
    let tv = crate::text::trim_range(&sv, 0, sv.len());
    proof {
        assert(sv@.subrange(0, sv@.len() as int) =~= s@);
    }
    let t = string_of(&tv);
    let dmy = match regex_is_match("^\\d{1,2}/\\d{1,2}/\\d{4}$", t.as_str()) {
        Some(b) => b,
        None => false,
    };
    let iso = match regex_is_match("^\\d{4}-\\d{2}-\\d{2}$", t.as_str()) {
        Some(b) => b,
        None => false,
    };
    date_from_matches(t.as_str(), format, dmy, iso)
}

/// The least of three numbers.
pub open spec fn min3(x: int, y: int, z: int) -> int {
    if x <= y && x <= z {
        x
    } else if y <= z {
        y
    } else {
        z
    }
}

/// The Levenshtein distance between `a` and `b`: the fewest insertions,
/// deletions and substitutions of one character that turn `a` into `b`.
pub open spec fn levenshtein<T>(a: Seq<T>, b: Seq<T>) -> nat
    decreases a.len() + b.len(),
{
    if a.len() == 0 {
        b.len()
    } else if b.len() == 0 {
        a.len()
    } else {
        min3(
            levenshtein(a.drop_last(), b) + 1int,
            levenshtein(a, b.drop_last()) + 1int,
            levenshtein(a.drop_last(), b.drop_last()) + if a.last() == b.last() {
                0int
            } else {
                1int
            },
        ) as nat
    }
}

/// The distance never exceeds the longer of the two lengths.
pub proof fn lemma_levenshtein_bound<T>(a: Seq<T>, b: Seq<T>)
    ensures
        levenshtein(a, b) <= if a.len() >= b.len() {
            a.len()
        } else {
            b.len()
        },
    decreases a.len() + b.len(),
{
    if a.len() > 0 && b.len() > 0 {
        lemma_levenshtein_bound(a.drop_last(), b.drop_last());
        lemma_levenshtein_bound(a.drop_last(), b);
        lemma_levenshtein_bound(a, b.drop_last());
    }
}

/// The Levenshtein distance between `a` and `b`, one row of the table at a
/// time.
pub fn edit_distance(a: &str, b: &str) -> (d: usize)
    ensures
        d == levenshtein(a@, b@),
{
    let av = crate::text::chars_of(a);
    let bv = crate::text::chars_of(b);
    let m = bv.len();
    let mut prev: Vec<usize> = Vec::new();
    let mut j: usize = 0;
    while j <= m
        invariant
            j <= m + 1,
            m == bv@.len(),
            m < usize::MAX / 4,
            prev@.len() == j,
            forall|k: int| 0 <= k < j ==> prev@[k] == levenshtein(av@.take(0), bv@.take(k)),
        decreases m + 1 - j,
    {
        proof {
            assert(av@.take(0).len() == 0);
        }
        prev.push(j);
        j = j + 1;
    }
    let mut i: usize = 0;
    while i < av.len()
        invariant
            i <= av@.len(),
            m == bv@.len(),
            m < usize::MAX / 4,
            av@.len() < usize::MAX / 4,
            prev@.len() == m + 1,
            forall|k: int| 0 <= k <= m ==> #[trigger] prev@[k] == levenshtein(av@.take(i as int), bv@.take(k)),
        decreases av@.len() - i,
    {
        let ghost ai = av@.take(i as int);
        let ghost an = av@.take(i + 1);
        assert(an.drop_last() =~= ai);
        let mut curr: Vec<usize> = Vec::new();
        proof {
            assert(bv@.take(0).len() == 0);
        }
        curr.push(i + 1);
        let mut jj: usize = 0;
        while jj < m
            invariant
                i < av@.len(),
                ai == av@.take(i as int),
                an == av@.take(i + 1),
                an.drop_last() == ai,
                m == bv@.len(),
                m < usize::MAX / 4,
                av@.len() < usize::MAX / 4,
                jj <= m,
                prev@.len() == m + 1,
                forall|k: int| 0 <= k <= m ==> #[trigger] prev@[k] == levenshtein(ai, bv@.take(k)),
                curr@.len() == jj + 1,
                forall|k: int| 0 <= k <= jj ==> #[trigger] curr@[k] == levenshtein(an, bv@.take(k)),
            decreases m - jj,
        {
            let ghost bj = bv@.take(jj + 1);
            assert(bj.drop_last() =~= bv@.take(jj as int));
            proof {
                lemma_levenshtein_bound(ai, bv@.take(jj as int));
                lemma_levenshtein_bound(ai, bj);
                lemma_levenshtein_bound(an, bv@.take(jj as int));
            }
            let cost: usize = if av[i] == bv[jj] { 0 } else { 1 };
            let x = prev[jj] + cost;
            let y = prev[jj + 1] + 1;
            let z = curr[jj] + 1;
            let best = if x <= y && x <= z {
                x
            } else if y <= z {
                y
            } else {
                z
            };
            proof {
                assert(an.last() == av@[i as int]);
                assert(bj.last() == bv@[jj as int]);
                assert(levenshtein(an, bj) == best);
            }
            curr.push(best);
            jj = jj + 1;
        }
        prev = curr;
        i = i + 1;
    }
    proof {
        assert(av@.take(av@.len() as int) =~= av@);
        assert(bv@.take(m as int) =~= bv@);
    }
    prev[m]
}

/// The Levenshtein distance between two lists of words: the fewest words
/// inserted, deleted or replaced that turn `a` into `b`.
pub fn word_edit_distance(a: &Vec<String>, b: &Vec<String>) -> (d: usize)
    requires
        a@.len() < usize::MAX / 4,
        b@.len() < usize::MAX / 4,
    ensures
        d == levenshtein(crate::ast::strings_view(a@), crate::ast::strings_view(b@)),
{
    let ghost av = crate::ast::strings_view(a@);
    let ghost bv = crate::ast::strings_view(b@);
    let m = b.len();
    let mut prev: Vec<usize> = Vec::new();
    let mut j: usize = 0;
    while j <= m
        invariant
            j <= m + 1,
            m == bv.len(),
            av == crate::ast::strings_view(a@),
            bv == crate::ast::strings_view(b@),
            m < usize::MAX / 4,
            prev@.len() == j,
            forall|k: int| 0 <= k < j ==> prev@[k] == levenshtein(av.take(0), bv.take(k)),
        decreases m + 1 - j,
    {
        proof {
            assert(av.take(0).len() == 0);
        }
        prev.push(j);
        j = j + 1;
    }
    let mut i: usize = 0;
    while i < a.len()
        invariant
            i <= av.len(),
            m == bv.len(),
            av == crate::ast::strings_view(a@),
            bv == crate::ast::strings_view(b@),
            m < usize::MAX / 4,
            av.len() < usize::MAX / 4,
            prev@.len() == m + 1,
            forall|k: int| 0 <= k <= m ==> #[trigger] prev@[k] == levenshtein(av.take(i as int), bv.take(k)),
        decreases a@.len() - i,
    {
        let ghost ai = av.take(i as int);
        let ghost an = av.take(i + 1);
        assert(an.drop_last() =~= ai);
        let mut curr: Vec<usize> = Vec::new();
        proof {
            assert(bv.take(0).len() == 0);
        }
        curr.push(i + 1);
        let mut jj: usize = 0;
        while jj < m
            invariant
                i < av.len(),
                ai == av.take(i as int),
                an == av.take(i + 1),
                an.drop_last() == ai,
                m == bv.len(),
                av == crate::ast::strings_view(a@),
                bv == crate::ast::strings_view(b@),
            av == crate::ast::strings_view(a@),
            bv == crate::ast::strings_view(b@),
                m < usize::MAX / 4,
                av.len() < usize::MAX / 4,
                jj <= m,
                prev@.len() == m + 1,
                forall|k: int| 0 <= k <= m ==> #[trigger] prev@[k] == levenshtein(ai, bv.take(k)),
                curr@.len() == jj + 1,
                forall|k: int| 0 <= k <= jj ==> #[trigger] curr@[k] == levenshtein(an, bv.take(k)),
            decreases m - jj,
        {
            let ghost bj = bv.take(jj + 1);
            assert(bj.drop_last() =~= bv.take(jj as int));
            proof {
                lemma_levenshtein_bound(ai, bv.take(jj as int));
                lemma_levenshtein_bound(ai, bj);
                lemma_levenshtein_bound(an, bv.take(jj as int));
            }
            let same = crate::text::chars_eq(&crate::text::chars_of(a[i].as_str()), &crate::text::chars_of(b[jj].as_str()));
            let cost: usize = if same { 0 } else { 1 };
            let x = prev[jj] + cost;
            let y = prev[jj + 1] + 1;
            let z = curr[jj] + 1;
            let best = if x <= y && x <= z {
                x
            } else if y <= z {
                y
            } else {
                z
            };
            proof {
                assert(an.last() == av[i as int]);
                assert(bj.last() == bv[jj as int]);
                assert(levenshtein(an, bj) == best);
            }
            curr.push(best);
            jj = jj + 1;
        }
        prev = curr;
        i = i + 1;
    }
    proof {
        assert(av.take(av.len() as int) =~= av);
        assert(bv.take(m as int) =~= bv);
    }
    prev[m]
}


// ---------------------------------------------------------------------------
// Sentences, paragraphs, patterns and personal data.
// ---------------------------------------------------------------------------

/// The pieces of `text` between the matches of `pattern`
/// (`Regex::split`), in order, empty pieces included.
pub uninterp spec fn regex_pieces(pattern: Seq<char>, text: Seq<char>) -> Seq<Seq<char>>;

/// The successive non-overlapping matches of `pattern` in `text`
/// (`Regex::find_iter`), in order.
pub uninterp spec fn regex_found(pattern: Seq<char>, text: Seq<char>) -> Seq<Seq<char>>;

/// Calls `regex::Regex::new(pattern)` and, when the pattern compiles,
/// `Regex::split(text)`, each piece copied into a `String`: `None` when the
/// pattern does not compile. Which pieces come out is left to the names.
#[verifier::external_body]
fn regex_split(pattern: &str, text: &str) -> (r: Option<Vec<String>>)
    ensures
        r is None <==> !regex_compiles(pattern@),
        r matches Some(v) ==> crate::ast::strings_view(v@) == regex_pieces(pattern@, text@),
{
    match regex::Regex::new(pattern) {
        Ok(re) => Some(re.split(text).map(String::from).collect()),
        Err(_) => None,
    }
}

/// Calls `regex::Regex::new(pattern)` and, when the pattern compiles,
/// `Regex::find_iter(text)`, each match's text copied into a `String`:
/// `None` when the pattern does not compile. Which matches come out is left
/// to the names.
#[verifier::external_body]
fn regex_find_all(pattern: &str, text: &str) -> (r: Option<Vec<String>>)
    ensures
        r is None <==> !regex_compiles(pattern@),
        r matches Some(v) ==> crate::ast::strings_view(v@) == regex_found(pattern@, text@),
{
    match regex::Regex::new(pattern) {
        Ok(re) => Some(re.find_iter(text).map(|m| m.as_str().to_string()).collect()),
        Err(_) => None,
    }
}

/// The pieces trimmed (`str::trim`), the empty ones dropped.
pub open spec fn nonempty_trimmed(pieces: Seq<Seq<char>>) -> Seq<Seq<char>>
    decreases pieces.len(),
{
    if pieces.len() == 0 {
        seq![]
    } else {
        let rest = nonempty_trimmed(pieces.drop_last());
        let t = crate::text::trim(pieces.last());
        if t.len() > 0 {
            rest.push(t)
        } else {
            rest
        }
    }
}

/// What a sentence ends with: punctuation, then white space.
pub open spec fn sentence_pattern() -> Seq<char> {
    "[.!?]+\\s+"@
}

/// What separates paragraphs: a line break, white space, a line break.
pub open spec fn paragraph_pattern() -> Seq<char> {
    "\\n\\s*\\n"@
}

/// The text split at `pattern`, trimmed, without empty pieces (nothing
/// when the pattern does not compile).
pub open spec fn split_text(pattern: Seq<char>, text: Seq<char>) -> Seq<Seq<char>> {
    if regex_compiles(pattern) {
        nonempty_trimmed(regex_pieces(pattern, text))
    } else {
        seq![]
    }
}

/// Trims each piece and keeps the non-empty ones.
fn keep_trimmed(pieces: &Vec<String>) -> (r: Vec<String>)
    ensures
        crate::ast::strings_view(r@) == nonempty_trimmed(crate::ast::strings_view(pieces@)),
{
    let ghost pv = crate::ast::strings_view(pieces@);
    let mut out: Vec<String> = Vec::new();
    let mut i: usize = 0;
    while i < pieces.len()
        invariant
            i <= pieces@.len(),
            pv == crate::ast::strings_view(pieces@),
            crate::ast::strings_view(out@) == nonempty_trimmed(pv.take(i as int)),
        decreases pieces.len() - i,
    {
        assert(pv.take(i + 1).drop_last() =~= pv.take(i as int));
        let cs = crate::text::chars_of(pieces[i].as_str());
        assert(cs@ == pv.take(i + 1).last());
        let t = crate::text::trim_range(&cs, 0, cs.len());
        assert(cs@.subrange(0, cs@.len() as int) =~= cs@);
        if t.len() > 0 {
            let ghost before = crate::ast::strings_view(out@);
            out.push(string_of(&t));
            assert(crate::ast::strings_view(out@) =~= before.push(t@));
        }
        i = i + 1;
    }
    assert(pv.take(pieces@.len() as int) =~= pv);
    out
}

/// Splits `text` at `pattern`, trims, drops empty pieces.
fn split_trimmed(pattern: &str, text: &str) -> (r: Vec<String>)
    ensures
        crate::ast::strings_view(r@) == split_text(pattern@, text@),
{
    match regex_split(pattern, text) {
        Some(pieces) => keep_trimmed(&pieces),
        None => Vec::new(),
    }
}

/// The sentences of `text`: split after `.`, `!` or `?` followed by white
/// space, trimmed, without empty ones.
pub fn split_sentences(text: &str) -> (r: Vec<String>)
    ensures
        crate::ast::strings_view(r@) == split_text(sentence_pattern(), text@),
{
    let pattern = "[.!?]+\\s+";
    proof {
        reveal_strlit("[.!?]+\\s+");
        assert(pattern@ == sentence_pattern());
    }
    split_trimmed(pattern, text)
}

/// The paragraphs of `text`: split at blank lines, trimmed, without empty
/// ones.
pub fn split_paragraphs(text: &str) -> (r: Vec<String>)
    ensures
        crate::ast::strings_view(r@) == split_text(paragraph_pattern(), text@),
{
    let pattern = "\\n\\s*\\n";
    proof {
        reveal_strlit("\\n\\s*\\n");
        assert(pattern@ == paragraph_pattern());
    }
    split_trimmed(pattern, text)
}

/// Whether `pattern` matches somewhere in `text`: `None` when the pattern
/// does not compile (`text::require_match`, `text::forbid_match`).
pub fn pattern_matches(pattern: &str, text: &str) -> (r: Option<bool>)
    ensures
        r is None <==> !regex_compiles(pattern@),
        r matches Some(b) ==> b == regex_matches(pattern@, text@),
{
    regex_is_match(pattern, text)
}

/// `pattern` anchored to match a whole text: `^(?:pattern)$`.
pub open spec fn anchored(pattern: Seq<char>) -> Seq<char> {
    "^(?:"@ + pattern + ")$"@
}

/// Whether the whole of `s` matches `pattern`: `None` when the anchored
/// pattern does not compile (`text::validate_format`).
pub fn format_matches(s: &str, pattern: &str) -> (r: Option<bool>)
    ensures
        r is None <==> !regex_compiles(anchored(pattern@)),
        r matches Some(b) ==> b == regex_matches(anchored(pattern@), s@),
{
    let mut p: Vec<char> = Vec::new();
    crate::text::push_str(&mut p, "^(?:");
    crate::text::push_str(&mut p, pattern);
    crate::text::push_str(&mut p, ")$");
    proof {
        reveal_strlit("^(?:");
        reveal_strlit(")$");
    }
    assert(p@ =~= anchored(pattern@));
    let p = string_of(&p);
    regex_is_match(p.as_str(), s)
}

/// The pattern of a Brazilian phone number.
pub open spec fn phone_format_pattern() -> Seq<char> {
    "^\\(?\\d{2}\\)?\\s?9?\\d{4}-?\\d{4}$"@
}

/// How many ASCII digits `s` holds.
pub open spec fn ascii_digit_count(s: Seq<char>) -> nat
    decreases s.len(),
{
    if s.len() == 0 {
        0
    } else {
        ascii_digit_count(s.drop_last()) + if is_digit(s.last()) {
            1nat
        } else {
            0nat
        }
    }
}

/// A phone number: the trimmed text matches the phone pattern, and it has
/// 10 or 11 digits.
pub open spec fn spec_phone_valid(s: Seq<char>) -> bool {
    &&& pattern_hit(phone_format_pattern(), crate::text::trim(s))
    &&& (ascii_digit_count(s) == 10 || ascii_digit_count(s) == 11)
}

/// Whether `s` is a phone number (`text::validate_phone_format`).
pub fn phone_valid(s: &str) -> (r: bool)
    ensures
        r == spec_phone_valid(s@),
{
    let cs = crate::text::chars_of(s);
    let mut n: usize = 0;
    let mut i: usize = 0;
    while i < cs.len()
        invariant
            i <= cs@.len(),
            n == ascii_digit_count(cs@.take(i as int)),
            n <= i,
        decreases cs.len() - i,
    {
        assert(cs@.take(i + 1).drop_last() =~= cs@.take(i as int));
        if '0' <= cs[i] && cs[i] <= '9' {
            n = n + 1;
        }
        i = i + 1;
    }
    assert(cs@.take(cs@.len() as int) =~= cs@);
    let t = crate::text::trim_range(&cs, 0, cs.len());
    assert(cs@.subrange(0, cs@.len() as int) =~= cs@);
    let t = string_of(&t);
    let pattern = "^\\(?\\d{2}\\)?\\s?9?\\d{4}-?\\d{4}$";
    proof {
        reveal_strlit("^\\(?\\d{2}\\)?\\s?9?\\d{4}-?\\d{4}$");
        assert(pattern@ == phone_format_pattern());
    }
    let hit = match regex_is_match(pattern, t.as_str()) {
        Some(b) => b,
        None => false,
    };
    hit && (n == 10 || n == 11)
}

/// The patterns of the personal data looked for.
pub open spec fn cpf_pattern() -> Seq<char> {
    "\\b\\d{3}\\.\\d{3}\\.\\d{3}-\\d{2}\\b"@
}

pub open spec fn cnpj_pattern() -> Seq<char> {
    "\\b\\d{2}\\.\\d{3}\\.\\d{3}/\\d{4}-\\d{2}\\b"@
}

pub open spec fn email_pattern() -> Seq<char> {
    "[\\w.+-]+@[\\w-]+\\.[\\w.-]+"@
}

pub open spec fn phone_pattern() -> Seq<char> {
    "\\(\\d{2}\\)\\s*9?\\d{4}-\\d{4}"@
}

/// The matches of `pattern` in `text` (none when it does not compile).
pub open spec fn found(pattern: Seq<char>, text: Seq<char>) -> Seq<Seq<char>> {
    if regex_compiles(pattern) {
        regex_found(pattern, text)
    } else {
        seq![]
    }
}

/// The numbers among `ms` that pass the check digits (of a CPF when `cpf`,
/// else of a CNPJ), each behind `label: `.
pub open spec fn checked_numbers(ms: Seq<Seq<char>>, cpf: bool, label: Seq<char>) -> Seq<Seq<char>>
    decreases ms.len(),
{
    if ms.len() == 0 {
        seq![]
    } else {
        let rest = checked_numbers(ms.drop_last(), cpf, label);
        let ok = if cpf { spec_cpf_valid(ms.last()) } else { spec_cnpj_valid(ms.last()) };
        if ok {
            rest.push(label + ": "@ + ms.last())
        } else {
            rest
        }
    }
}

/// Each of `ms` behind `label: `.
pub open spec fn labelled(ms: Seq<Seq<char>>, label: Seq<char>) -> Seq<Seq<char>> {
    ms.map_values(|m: Seq<char>| label + ": "@ + m)
}

/// The personal data of `text`: valid CPF numbers, then valid CNPJ
/// numbers, then e-mail addresses, then phone numbers, each labelled, each
/// kind in the order found.
pub open spec fn spec_personal_data(text: Seq<char>) -> Seq<Seq<char>> {
    checked_numbers(found(cpf_pattern(), text), true, "CPF"@)
        + checked_numbers(found(cnpj_pattern(), text), false, "CNPJ"@)
        + labelled(found(email_pattern(), text), "E-mail"@)
        + labelled(found(phone_pattern(), text), "Phone"@)
}

/// Appends the matches of `pattern` in `text` to `out`, each behind
/// `label: `, keeping only valid CPF (or CNPJ) numbers when `check` is
/// `Some(true)` (or `Some(false)`).
fn push_found(out: &mut Vec<String>, pattern: &str, text: &str, label: &str, check: Option<bool>)
    ensures
        crate::ast::strings_view(final(out)@) == crate::ast::strings_view(old(out)@) + match check {
            Some(cpf) => checked_numbers(found(pattern@, text@), cpf, label@),
            None => labelled(found(pattern@, text@), label@),
        },
{
    let ms = match regex_find_all(pattern, text) {
        Some(v) => v,
        None => Vec::new(),
    };
    let ghost mv = crate::ast::strings_view(ms@);
    assert(mv == found(pattern@, text@));
    let ghost start = crate::ast::strings_view(out@);
    let mut i: usize = 0;
    while i < ms.len()
        invariant
            i <= ms@.len(),
            mv == crate::ast::strings_view(ms@),
            crate::ast::strings_view(out@) == start + match check {
                Some(cpf) => checked_numbers(mv.take(i as int), cpf, label@),
                None => labelled(mv.take(i as int), label@),
            },
        decreases ms.len() - i,
    {
        assert(mv.take(i + 1).drop_last() =~= mv.take(i as int));
        assert(mv.take(i + 1).last() == ms@[i as int]@);
        let m = ms[i].as_str();
        let keep = match check {
            Some(true) => cpf_valid(m),
            Some(false) => cnpj_valid(m),
            None => true,
        };
        let ghost before = crate::ast::strings_view(out@);
        if keep {
            let mut t: Vec<char> = Vec::new();
            crate::text::push_str(&mut t, label);
            crate::text::push_str(&mut t, ": ");
            crate::text::push_str(&mut t, m);
            proof {
                reveal_strlit(": ");
            }
            out.push(string_of(&t));
            assert(crate::ast::strings_view(out@) =~= before.push(label@ + ": "@ + ms@[i as int]@));
        }
        proof {
            if check is None {
                assert(labelled(mv.take(i + 1), label@) =~= labelled(mv.take(i as int), label@).push(
                    label@ + ": "@ + ms@[i as int]@,
                ));
            }
        }
        assert(crate::ast::strings_view(out@) =~= start + match check {
            Some(cpf) => checked_numbers(mv.take(i + 1), cpf, label@),
            None => labelled(mv.take(i + 1), label@),
        });
        i = i + 1;
    }
    assert(mv.take(ms@.len() as int) =~= mv);
}

/// The personal data found in `text` (`text::detect_personal_data`).
pub fn personal_data(text: &str) -> (r: Vec<String>)
    ensures
        crate::ast::strings_view(r@) == spec_personal_data(text@),
{
    let cpf = "\\b\\d{3}\\.\\d{3}\\.\\d{3}-\\d{2}\\b";
    let cnpj = "\\b\\d{2}\\.\\d{3}\\.\\d{3}/\\d{4}-\\d{2}\\b";
    let email = "[\\w.+-]+@[\\w-]+\\.[\\w.-]+";
    let phone = "\\(\\d{2}\\)\\s*9?\\d{4}-\\d{4}";
    proof {
        reveal_strlit("\\b\\d{3}\\.\\d{3}\\.\\d{3}-\\d{2}\\b");
        reveal_strlit("\\b\\d{2}\\.\\d{3}\\.\\d{3}/\\d{4}-\\d{2}\\b");
        reveal_strlit("[\\w.+-]+@[\\w-]+\\.[\\w.-]+");
        reveal_strlit("\\(\\d{2}\\)\\s*9?\\d{4}-\\d{4}");
        assert(cpf@ == cpf_pattern());
        assert(cnpj@ == cnpj_pattern());
        assert(email@ == email_pattern());
        assert(phone@ == phone_pattern());
    }
    let mut out: Vec<String> = Vec::new();
    push_found(&mut out, cpf, text, "CPF", Some(true));
    push_found(&mut out, cnpj, text, "CNPJ", Some(false));
    push_found(&mut out, email, text, "E-mail", None);
    push_found(&mut out, phone, text, "Phone", None);
    assert(crate::ast::strings_view(out@) =~= spec_personal_data(text@));
    out
}


/// `text` with every match of `pattern` replaced by `with`
/// (`Regex::replace_all`, `$` references in `with` expanded as it does).
pub uninterp spec fn regex_replaced(pattern: Seq<char>, text: Seq<char>, with: Seq<char>) -> Seq<char>;

/// Calls `regex::Regex::new(pattern)` and, when the pattern compiles,
/// `Regex::replace_all(text, with)`: `None` when the pattern does not
/// compile. The replaced text is left to the name.
#[verifier::external_body]
pub(crate) fn regex_replace_all(pattern: &str, text: &str, with: &str) -> (r: Option<String>)
    ensures
        r is None <==> !regex_compiles(pattern@),
        r matches Some(t) ==> t@ == regex_replaced(pattern@, text@, with@),
{
    match regex::Regex::new(pattern) {
        Ok(re) => Some(re.replace_all(text, with).into_owned()),
        Err(_) => None,
    }
}

/// Whether `needle`, normalised, occurs in `text`, normalised
/// (`text::require_text`, `text::forbid_text`).
pub fn contains_normalized(text: &str, needle: &str) -> (r: bool)
    ensures
        r == crate::structns::contains_text(spec_normalize(text@), spec_normalize(needle@)),
{
    let t = normalize(text);
    let n = normalize(needle);
    let tv = crate::text::chars_of(t.as_str());
    crate::structns::text_contains(&tv, n.as_str())
}


// ---------------------------------------------------------------------------
// The calendar and the check digits, stated digit by digit.
// ---------------------------------------------------------------------------

/// The months of the Gregorian calendar: for a year from 1 to 9999, every
/// month has days 1 to 28; day 29 exists except in February of a common
/// year (one not divisible by 4, or by 100 and not 400); day 30 exists in
/// every month but February; day 31 only in January, March, May, July,
/// August, October and December; no day outside 1 to 31, no month outside
/// 1 to 12 and no year outside 1 to 9999 exists.
pub proof fn lemma_calendar_is_gregorian(d: int, m: int, y: int)
    ensures
        (1 <= y <= 9999 && 1 <= m <= 12 && 1 <= d <= 28) ==> calendar_valid(d, m, y),
        calendar_valid(29, m, y) <==> (1 <= y <= 9999 && 1 <= m <= 12 && (m != 2 || (y % 4 == 0 && (y % 100 != 0
            || y % 400 == 0)))),
        calendar_valid(30, m, y) <==> (1 <= y <= 9999 && 1 <= m <= 12 && m != 2),
        calendar_valid(31, m, y) <==> (1 <= y <= 9999 && (m == 1 || m == 3 || m == 5 || m == 7 || m == 8 || m == 10
            || m == 12)),
        calendar_valid(d, m, y) ==> 1 <= d <= 31 && 1 <= m <= 12 && 1 <= y <= 9999,
{
}

/// The CPF check digits, digit by digit: a CPF is valid exactly when it has
/// eleven digits, not all the same, the tenth is the check digit of the
/// first nine (ten times `10·d0 + 9·d1 + … + 2·d8`, modulo 11, 10 read as 0)
/// and the eleventh the check digit of the first ten (ten times
/// `11·d0 + 10·d1 + … + 2·d9`, modulo 11, 10 read as 0).
pub proof fn lemma_cpf_check_digits(s: Seq<char>)
    ensures
        spec_cpf_valid(s) <==> {
            let d = digits_of(s);
            &&& d.len() == 11
            &&& !(forall|i: int| 0 <= i < 11 ==> #[trigger] d[i] == d[0])
            &&& d[9] == ({
                let r = (10 * (10 * d[0] + 9 * d[1] + 8 * d[2] + 7 * d[3] + 6 * d[4] + 5 * d[5] + 4 * d[6] + 3 * d[7]
                    + 2 * d[8])) % 11;
                if r == 10 { 0 } else { r }
            })
            &&& d[10] == ({
                let r = (10 * (11 * d[0] + 10 * d[1] + 9 * d[2] + 8 * d[3] + 7 * d[4] + 6 * d[5] + 5 * d[6] + 4 * d[7]
                    + 3 * d[8] + 2 * d[9])) % 11;
                if r == 10 { 0 } else { r }
            })
        },
{
    let d = digits_of(s);
    if d.len() == 11 {
        assert(cpf_sum(d, 9, 0) == 0);
        assert(cpf_sum(d, 10, 0) == 0);
        assert(cpf_sum(d, 9, 1) == cpf_sum(d, 9, 0) + d[0] * 10);
        assert(d[0] * 10 == 10 * d[0]) by (nonlinear_arith);
        assert(cpf_sum(d, 9, 1) == 10 * d[0]);
        assert(cpf_sum(d, 9, 2) == cpf_sum(d, 9, 1) + d[1] * 9);
        assert(d[1] * 9 == 9 * d[1]) by (nonlinear_arith);
        assert(cpf_sum(d, 9, 2) == 10 * d[0] + 9 * d[1]);
        assert(cpf_sum(d, 9, 3) == cpf_sum(d, 9, 2) + d[2] * 8);
        assert(d[2] * 8 == 8 * d[2]) by (nonlinear_arith);
        assert(cpf_sum(d, 9, 3) == 10 * d[0] + 9 * d[1] + 8 * d[2]);
        assert(cpf_sum(d, 9, 4) == cpf_sum(d, 9, 3) + d[3] * 7);
        assert(d[3] * 7 == 7 * d[3]) by (nonlinear_arith);
        assert(cpf_sum(d, 9, 4) == 10 * d[0] + 9 * d[1] + 8 * d[2] + 7 * d[3]);
        assert(cpf_sum(d, 9, 5) == cpf_sum(d, 9, 4) + d[4] * 6);
        assert(d[4] * 6 == 6 * d[4]) by (nonlinear_arith);
        assert(cpf_sum(d, 9, 5) == 10 * d[0] + 9 * d[1] + 8 * d[2] + 7 * d[3] + 6 * d[4]);
        assert(cpf_sum(d, 9, 6) == cpf_sum(d, 9, 5) + d[5] * 5);
        assert(d[5] * 5 == 5 * d[5]) by (nonlinear_arith);
        assert(cpf_sum(d, 9, 6) == 10 * d[0] + 9 * d[1] + 8 * d[2] + 7 * d[3] + 6 * d[4] + 5 * d[5]);
        assert(cpf_sum(d, 9, 7) == cpf_sum(d, 9, 6) + d[6] * 4);
        assert(d[6] * 4 == 4 * d[6]) by (nonlinear_arith);
        assert(cpf_sum(d, 9, 7) == 10 * d[0] + 9 * d[1] + 8 * d[2] + 7 * d[3] + 6 * d[4] + 5 * d[5] + 4 * d[6]);
        assert(cpf_sum(d, 9, 8) == cpf_sum(d, 9, 7) + d[7] * 3);
        assert(d[7] * 3 == 3 * d[7]) by (nonlinear_arith);
        assert(cpf_sum(d, 9, 8) == 10 * d[0] + 9 * d[1] + 8 * d[2] + 7 * d[3] + 6 * d[4] + 5 * d[5] + 4 * d[6] + 3 * d[7]);
        assert(cpf_sum(d, 9, 9) == cpf_sum(d, 9, 8) + d[8] * 2);
        assert(d[8] * 2 == 2 * d[8]) by (nonlinear_arith);
        assert(cpf_sum(d, 9, 9) == 10 * d[0] + 9 * d[1] + 8 * d[2] + 7 * d[3] + 6 * d[4] + 5 * d[5] + 4 * d[6] + 3 * d[7] + 2 * d[8]);
        assert(cpf_sum(d, 10, 1) == cpf_sum(d, 10, 0) + d[0] * 11);
        assert(d[0] * 11 == 11 * d[0]) by (nonlinear_arith);
        assert(cpf_sum(d, 10, 1) == 11 * d[0]);
        assert(cpf_sum(d, 10, 2) == cpf_sum(d, 10, 1) + d[1] * 10);
        assert(d[1] * 10 == 10 * d[1]) by (nonlinear_arith);
        assert(cpf_sum(d, 10, 2) == 11 * d[0] + 10 * d[1]);
        assert(cpf_sum(d, 10, 3) == cpf_sum(d, 10, 2) + d[2] * 9);
        assert(d[2] * 9 == 9 * d[2]) by (nonlinear_arith);
        assert(cpf_sum(d, 10, 3) == 11 * d[0] + 10 * d[1] + 9 * d[2]);
        assert(cpf_sum(d, 10, 4) == cpf_sum(d, 10, 3) + d[3] * 8);
        assert(d[3] * 8 == 8 * d[3]) by (nonlinear_arith);
        assert(cpf_sum(d, 10, 4) == 11 * d[0] + 10 * d[1] + 9 * d[2] + 8 * d[3]);
        assert(cpf_sum(d, 10, 5) == cpf_sum(d, 10, 4) + d[4] * 7);
        assert(d[4] * 7 == 7 * d[4]) by (nonlinear_arith);
        assert(cpf_sum(d, 10, 5) == 11 * d[0] + 10 * d[1] + 9 * d[2] + 8 * d[3] + 7 * d[4]);
        assert(cpf_sum(d, 10, 6) == cpf_sum(d, 10, 5) + d[5] * 6);
        assert(d[5] * 6 == 6 * d[5]) by (nonlinear_arith);
        assert(cpf_sum(d, 10, 6) == 11 * d[0] + 10 * d[1] + 9 * d[2] + 8 * d[3] + 7 * d[4] + 6 * d[5]);
        assert(cpf_sum(d, 10, 7) == cpf_sum(d, 10, 6) + d[6] * 5);
        assert(d[6] * 5 == 5 * d[6]) by (nonlinear_arith);
        assert(cpf_sum(d, 10, 7) == 11 * d[0] + 10 * d[1] + 9 * d[2] + 8 * d[3] + 7 * d[4] + 6 * d[5] + 5 * d[6]);
        assert(cpf_sum(d, 10, 8) == cpf_sum(d, 10, 7) + d[7] * 4);
        assert(d[7] * 4 == 4 * d[7]) by (nonlinear_arith);
        assert(cpf_sum(d, 10, 8) == 11 * d[0] + 10 * d[1] + 9 * d[2] + 8 * d[3] + 7 * d[4] + 6 * d[5] + 5 * d[6] + 4 * d[7]);
        assert(cpf_sum(d, 10, 9) == cpf_sum(d, 10, 8) + d[8] * 3);
        assert(d[8] * 3 == 3 * d[8]) by (nonlinear_arith);
        assert(cpf_sum(d, 10, 9) == 11 * d[0] + 10 * d[1] + 9 * d[2] + 8 * d[3] + 7 * d[4] + 6 * d[5] + 5 * d[6] + 4 * d[7] + 3 * d[8]);
        assert(cpf_sum(d, 10, 10) == cpf_sum(d, 10, 9) + d[9] * 2);
        assert(d[9] * 2 == 2 * d[9]) by (nonlinear_arith);
        assert(cpf_sum(d, 10, 10) == 11 * d[0] + 10 * d[1] + 9 * d[2] + 8 * d[3] + 7 * d[4] + 6 * d[5] + 5 * d[6] + 4 * d[7] + 3 * d[8] + 2 * d[9]);
        assert(cpf_sum(d, 9, 9) == cpf_sum(d, 9, 8) + d[8] * 2);
        assert(d[8] * 2 == 2 * d[8]) by (nonlinear_arith);
        assert(cpf_sum(d, 9, 9) == 10 * d[0] + 9 * d[1] + 8 * d[2] + 7 * d[3] + 6 * d[4] + 5 * d[5] + 4 * d[6] + 3
            * d[7] + 2 * d[8]);
        assert(cpf_sum(d, 10, 10) == cpf_sum(d, 10, 9) + d[9] * 2);
        assert(d[9] * 2 == 2 * d[9]) by (nonlinear_arith);
        assert(cpf_sum(d, 10, 10) == 11 * d[0] + 10 * d[1] + 9 * d[2] + 8 * d[3] + 7 * d[4] + 6 * d[5] + 5 * d[6] + 4
            * d[7] + 3 * d[8] + 2 * d[9]);
    }
}

/// The CNPJ check digits, digit by digit: a CNPJ is valid exactly when it
/// has fourteen digits, not all the same, the thirteenth is the check digit
/// of the first twelve (weights 5, 4, 3, 2, 9, 8, 7, 6, 5, 4, 3, 2) and the
/// fourteenth that of the first thirteen (weights 6, 5, 4, 3, 2, 9, 8, 7, 6,
/// 5, 4, 3, 2); a check digit is 0 when the weighted sum leaves less than 2
/// modulo 11, else 11 minus that remainder.
pub proof fn lemma_cnpj_check_digits(s: Seq<char>)
    ensures
        spec_cnpj_valid(s) <==> {
            let d = digits_of(s);
            &&& d.len() == 14
            &&& !(forall|i: int| 0 <= i < 14 ==> #[trigger] d[i] == d[0])
            &&& d[12] == ({
                let r = (5 * d[0] + 4 * d[1] + 3 * d[2] + 2 * d[3] + 9 * d[4] + 8 * d[5] + 7 * d[6] + 6 * d[7] + 5 * d[8]
                    + 4 * d[9] + 3 * d[10] + 2 * d[11]) % 11;
                if r < 2 { 0 } else { 11 - r }
            })
            &&& d[13] == ({
                let r = (6 * d[0] + 5 * d[1] + 4 * d[2] + 3 * d[3] + 2 * d[4] + 9 * d[5] + 8 * d[6] + 7 * d[7] + 6 * d[8]
                    + 5 * d[9] + 4 * d[10] + 3 * d[11] + 2 * d[12]) % 11;
                if r < 2 { 0 } else { 11 - r }
            })
        },
{
    let d = digits_of(s);
    if d.len() == 14 {
        assert(cnpj_sum(d, 12, 0) == 0);
        assert(cnpj_sum(d, 13, 0) == 0);
        assert(cnpj_sum(d, 12, 1) == cnpj_sum(d, 12, 0) + d[11] * 2);
        assert(d[11] * 2 == 2 * d[11]) by (nonlinear_arith);
        assert(cnpj_sum(d, 12, 1) == 2 * d[11]);
        assert(cnpj_sum(d, 12, 2) == cnpj_sum(d, 12, 1) + d[10] * 3);
        assert(d[10] * 3 == 3 * d[10]) by (nonlinear_arith);
        assert(cnpj_sum(d, 12, 2) == 2 * d[11] + 3 * d[10]);
        assert(cnpj_sum(d, 12, 3) == cnpj_sum(d, 12, 2) + d[9] * 4);
        assert(d[9] * 4 == 4 * d[9]) by (nonlinear_arith);
        assert(cnpj_sum(d, 12, 3) == 2 * d[11] + 3 * d[10] + 4 * d[9]);
        assert(cnpj_sum(d, 12, 4) == cnpj_sum(d, 12, 3) + d[8] * 5);
        assert(d[8] * 5 == 5 * d[8]) by (nonlinear_arith);
        assert(cnpj_sum(d, 12, 4) == 2 * d[11] + 3 * d[10] + 4 * d[9] + 5 * d[8]);
        assert(cnpj_sum(d, 12, 5) == cnpj_sum(d, 12, 4) + d[7] * 6);
        assert(d[7] * 6 == 6 * d[7]) by (nonlinear_arith);
        assert(cnpj_sum(d, 12, 5) == 2 * d[11] + 3 * d[10] + 4 * d[9] + 5 * d[8] + 6 * d[7]);
        assert(cnpj_sum(d, 12, 6) == cnpj_sum(d, 12, 5) + d[6] * 7);
        assert(d[6] * 7 == 7 * d[6]) by (nonlinear_arith);
        assert(cnpj_sum(d, 12, 6) == 2 * d[11] + 3 * d[10] + 4 * d[9] + 5 * d[8] + 6 * d[7] + 7 * d[6]);
        assert(cnpj_sum(d, 12, 7) == cnpj_sum(d, 12, 6) + d[5] * 8);
        assert(d[5] * 8 == 8 * d[5]) by (nonlinear_arith);
        assert(cnpj_sum(d, 12, 7) == 2 * d[11] + 3 * d[10] + 4 * d[9] + 5 * d[8] + 6 * d[7] + 7 * d[6] + 8 * d[5]);
        assert(cnpj_sum(d, 12, 8) == cnpj_sum(d, 12, 7) + d[4] * 9);
        assert(d[4] * 9 == 9 * d[4]) by (nonlinear_arith);
        assert(cnpj_sum(d, 12, 8) == 2 * d[11] + 3 * d[10] + 4 * d[9] + 5 * d[8] + 6 * d[7] + 7 * d[6] + 8 * d[5] + 9 * d[4]);
        assert(cnpj_sum(d, 12, 9) == cnpj_sum(d, 12, 8) + d[3] * 2);
        assert(d[3] * 2 == 2 * d[3]) by (nonlinear_arith);
        assert(cnpj_sum(d, 12, 9) == 2 * d[11] + 3 * d[10] + 4 * d[9] + 5 * d[8] + 6 * d[7] + 7 * d[6] + 8 * d[5] + 9 * d[4] + 2 * d[3]);
        assert(cnpj_sum(d, 12, 10) == cnpj_sum(d, 12, 9) + d[2] * 3);
        assert(d[2] * 3 == 3 * d[2]) by (nonlinear_arith);
        assert(cnpj_sum(d, 12, 10) == 2 * d[11] + 3 * d[10] + 4 * d[9] + 5 * d[8] + 6 * d[7] + 7 * d[6] + 8 * d[5] + 9 * d[4] + 2 * d[3] + 3 * d[2]);
        assert(cnpj_sum(d, 12, 11) == cnpj_sum(d, 12, 10) + d[1] * 4);
        assert(d[1] * 4 == 4 * d[1]) by (nonlinear_arith);
        assert(cnpj_sum(d, 12, 11) == 2 * d[11] + 3 * d[10] + 4 * d[9] + 5 * d[8] + 6 * d[7] + 7 * d[6] + 8 * d[5] + 9 * d[4] + 2 * d[3] + 3 * d[2] + 4 * d[1]);
        assert(cnpj_sum(d, 12, 12) == cnpj_sum(d, 12, 11) + d[0] * 5);
        assert(d[0] * 5 == 5 * d[0]) by (nonlinear_arith);
        assert(cnpj_sum(d, 12, 12) == 2 * d[11] + 3 * d[10] + 4 * d[9] + 5 * d[8] + 6 * d[7] + 7 * d[6] + 8 * d[5] + 9 * d[4] + 2 * d[3] + 3 * d[2] + 4 * d[1] + 5 * d[0]);
        assert(cnpj_sum(d, 13, 1) == cnpj_sum(d, 13, 0) + d[12] * 2);
        assert(d[12] * 2 == 2 * d[12]) by (nonlinear_arith);
        assert(cnpj_sum(d, 13, 1) == 2 * d[12]);
        assert(cnpj_sum(d, 13, 2) == cnpj_sum(d, 13, 1) + d[11] * 3);
        assert(d[11] * 3 == 3 * d[11]) by (nonlinear_arith);
        assert(cnpj_sum(d, 13, 2) == 2 * d[12] + 3 * d[11]);
        assert(cnpj_sum(d, 13, 3) == cnpj_sum(d, 13, 2) + d[10] * 4);
        assert(d[10] * 4 == 4 * d[10]) by (nonlinear_arith);
        assert(cnpj_sum(d, 13, 3) == 2 * d[12] + 3 * d[11] + 4 * d[10]);
        assert(cnpj_sum(d, 13, 4) == cnpj_sum(d, 13, 3) + d[9] * 5);
        assert(d[9] * 5 == 5 * d[9]) by (nonlinear_arith);
        assert(cnpj_sum(d, 13, 4) == 2 * d[12] + 3 * d[11] + 4 * d[10] + 5 * d[9]);
        assert(cnpj_sum(d, 13, 5) == cnpj_sum(d, 13, 4) + d[8] * 6);
        assert(d[8] * 6 == 6 * d[8]) by (nonlinear_arith);
        assert(cnpj_sum(d, 13, 5) == 2 * d[12] + 3 * d[11] + 4 * d[10] + 5 * d[9] + 6 * d[8]);
        assert(cnpj_sum(d, 13, 6) == cnpj_sum(d, 13, 5) + d[7] * 7);
        assert(d[7] * 7 == 7 * d[7]) by (nonlinear_arith);
        assert(cnpj_sum(d, 13, 6) == 2 * d[12] + 3 * d[11] + 4 * d[10] + 5 * d[9] + 6 * d[8] + 7 * d[7]);
        assert(cnpj_sum(d, 13, 7) == cnpj_sum(d, 13, 6) + d[6] * 8);
        assert(d[6] * 8 == 8 * d[6]) by (nonlinear_arith);
        assert(cnpj_sum(d, 13, 7) == 2 * d[12] + 3 * d[11] + 4 * d[10] + 5 * d[9] + 6 * d[8] + 7 * d[7] + 8 * d[6]);
        assert(cnpj_sum(d, 13, 8) == cnpj_sum(d, 13, 7) + d[5] * 9);
        assert(d[5] * 9 == 9 * d[5]) by (nonlinear_arith);
        assert(cnpj_sum(d, 13, 8) == 2 * d[12] + 3 * d[11] + 4 * d[10] + 5 * d[9] + 6 * d[8] + 7 * d[7] + 8 * d[6] + 9 * d[5]);
        assert(cnpj_sum(d, 13, 9) == cnpj_sum(d, 13, 8) + d[4] * 2);
        assert(d[4] * 2 == 2 * d[4]) by (nonlinear_arith);
        assert(cnpj_sum(d, 13, 9) == 2 * d[12] + 3 * d[11] + 4 * d[10] + 5 * d[9] + 6 * d[8] + 7 * d[7] + 8 * d[6] + 9 * d[5] + 2 * d[4]);
        assert(cnpj_sum(d, 13, 10) == cnpj_sum(d, 13, 9) + d[3] * 3);
        assert(d[3] * 3 == 3 * d[3]) by (nonlinear_arith);
        assert(cnpj_sum(d, 13, 10) == 2 * d[12] + 3 * d[11] + 4 * d[10] + 5 * d[9] + 6 * d[8] + 7 * d[7] + 8 * d[6] + 9 * d[5] + 2 * d[4] + 3 * d[3]);
        assert(cnpj_sum(d, 13, 11) == cnpj_sum(d, 13, 10) + d[2] * 4);
        assert(d[2] * 4 == 4 * d[2]) by (nonlinear_arith);
        assert(cnpj_sum(d, 13, 11) == 2 * d[12] + 3 * d[11] + 4 * d[10] + 5 * d[9] + 6 * d[8] + 7 * d[7] + 8 * d[6] + 9 * d[5] + 2 * d[4] + 3 * d[3] + 4 * d[2]);
        assert(cnpj_sum(d, 13, 12) == cnpj_sum(d, 13, 11) + d[1] * 5);
        assert(d[1] * 5 == 5 * d[1]) by (nonlinear_arith);
        assert(cnpj_sum(d, 13, 12) == 2 * d[12] + 3 * d[11] + 4 * d[10] + 5 * d[9] + 6 * d[8] + 7 * d[7] + 8 * d[6] + 9 * d[5] + 2 * d[4] + 3 * d[3] + 4 * d[2] + 5 * d[1]);
        assert(cnpj_sum(d, 13, 13) == cnpj_sum(d, 13, 12) + d[0] * 6);
        assert(d[0] * 6 == 6 * d[0]) by (nonlinear_arith);
        assert(cnpj_sum(d, 13, 13) == 2 * d[12] + 3 * d[11] + 4 * d[10] + 5 * d[9] + 6 * d[8] + 7 * d[7] + 8 * d[6] + 9 * d[5] + 2 * d[4] + 3 * d[3] + 4 * d[2] + 5 * d[1] + 6 * d[0]);
        assert(cnpj_sum(d, 12, 12) == cnpj_sum(d, 12, 11) + d[0] * 5);
        assert(d[0] * 5 == 5 * d[0]) by (nonlinear_arith);
        assert(cnpj_sum(d, 12, 12) == 5 * d[0] + 4 * d[1] + 3 * d[2] + 2 * d[3] + 9 * d[4] + 8 * d[5] + 7 * d[6] + 6
            * d[7] + 5 * d[8] + 4 * d[9] + 3 * d[10] + 2 * d[11]);
        assert(cnpj_sum(d, 13, 13) == cnpj_sum(d, 13, 12) + d[0] * 6);
        assert(d[0] * 6 == 6 * d[0]) by (nonlinear_arith);
        assert(cnpj_sum(d, 13, 13) == 6 * d[0] + 5 * d[1] + 4 * d[2] + 3 * d[3] + 2 * d[4] + 9 * d[5] + 8 * d[6] + 7
            * d[7] + 6 * d[8] + 5 * d[9] + 4 * d[10] + 3 * d[11] + 2 * d[12]);
    }
}


// ---------------------------------------------------------------------------
// What the edit distance is.
// ---------------------------------------------------------------------------

/// The distance is zero exactly between equal sequences.
pub proof fn lemma_levenshtein_zero_iff_equal<T>(a: Seq<T>, b: Seq<T>)
    ensures
        levenshtein(a, b) == 0 <==> a == b,
    decreases a.len() + b.len(),
{
    if a.len() > 0 && b.len() > 0 {
        lemma_levenshtein_zero_iff_equal(a.drop_last(), b.drop_last());
        if a == b {
            assert(a.drop_last() == b.drop_last());
        }
        if levenshtein(a, b) == 0 {
            assert(levenshtein(a.drop_last(), b.drop_last()) == 0 && a.last() == b.last());
            assert(a == a.drop_last().push(a.last()));
            assert(b == b.drop_last().push(b.last()));
        }
    } else if a.len() == 0 && b.len() == 0 {
        assert(a =~= b);
    } else if a.len() == 0 {
        assert(a != b);
    } else {
        assert(a != b);
    }
}

/// The distance is symmetric: turning `b` into `a` costs what turning `a`
/// into `b` does.
pub proof fn lemma_levenshtein_symmetric<T>(a: Seq<T>, b: Seq<T>)
    ensures
        levenshtein(a, b) == levenshtein(b, a),
    decreases a.len() + b.len(),
{
    if a.len() > 0 && b.len() > 0 {
        lemma_levenshtein_symmetric(a.drop_last(), b);
        lemma_levenshtein_symmetric(a, b.drop_last());
        lemma_levenshtein_symmetric(a.drop_last(), b.drop_last());
    }
}

/// The distance is at least the difference of the lengths: each edit
/// changes the length by one at most.
pub proof fn lemma_levenshtein_at_least_length_gap<T>(a: Seq<T>, b: Seq<T>)
    ensures
        levenshtein(a, b) >= a.len() - b.len(),
        levenshtein(a, b) >= b.len() - a.len(),
    decreases a.len() + b.len(),
{
    if a.len() > 0 && b.len() > 0 {
        lemma_levenshtein_at_least_length_gap(a.drop_last(), b);
        lemma_levenshtein_at_least_length_gap(a, b.drop_last());
        lemma_levenshtein_at_least_length_gap(a.drop_last(), b.drop_last());
    }
}

/// A sequence and the same sequence with one more character at the end
/// are exactly one edit apart, either way round.
pub proof fn lemma_levenshtein_one_edit<T>(a: Seq<T>, c: T)
    ensures
        levenshtein(a, a.push(c)) == 1,
        levenshtein(a.push(c), a) == 1,
{
    lemma_levenshtein_zero_iff_equal(a, a.push(c));
    lemma_levenshtein_at_least_length_gap(a, a.push(c));
    lemma_levenshtein_zero_iff_equal(a, a);
    assert(a.push(c).drop_last() =~= a);
    if a.len() > 0 {
        assert(levenshtein(a, a.push(c)) <= levenshtein(a, a) + 1);
    }
    lemma_levenshtein_symmetric(a, a.push(c));
}

} // verus!
