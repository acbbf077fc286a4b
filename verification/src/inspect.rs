//! The parts of a document summary (`pdfl inspect`) that are decided on
//! plain values: which metadata entries are listed, which page boxes every
//! page has, the distinct image colour spaces, and the warnings.

use vstd::prelude::*;
use crate::ast::strings_view;
use crate::lint::{lemma_lex_total, lemma_lex_trans, lex_lt, sorted_lines};
use crate::structns::sort_strings;
use crate::text::{char_is_ws, chars_eq, chars_of, is_ws, nat_text, owned, push_usize, string_of};

verus! {

/// One metadata entry of the summary.
pub struct MetadataEntry {
    pub key: String,
    pub value: String,
}

/// The entries of `metadata` whose value is not empty, in their order.
pub open spec fn listed_metadata(metadata: Seq<(String, String)>) -> Seq<(Seq<char>, Seq<char>)>
    decreases metadata.len(),
{
    if metadata.len() == 0 {
        Seq::empty()
    } else {
        let rest = listed_metadata(metadata.drop_last());
        if metadata.last().1@.len() > 0 {
            rest.push((metadata.last().0@, metadata.last().1@))
        } else {
            rest
        }
    }
}

/// The key and value of each entry.
pub open spec fn entries_view(entries: Seq<MetadataEntry>) -> Seq<(Seq<char>, Seq<char>)> {
    entries.map_values(|e: MetadataEntry| (e.key@, e.value@))
}

/// The metadata the summary lists: the entries with a value, in the PDF's
/// own order.
pub fn metadata_entries(metadata: &Vec<(String, String)>) -> (r: Vec<MetadataEntry>)
    ensures
        entries_view(r@) == listed_metadata(metadata@),
{
    let mut r: Vec<MetadataEntry> = Vec::new();
    let mut i: usize = 0;
    while i < metadata.len()
        invariant
            i <= metadata@.len(),
            entries_view(r@) == listed_metadata(metadata@.take(i as int)),
        decreases metadata.len() - i,
    {
        assert(metadata@.take(i + 1).drop_last() =~= metadata@.take(i as int));
        let (k, v) = &metadata[i];
        if chars_of(v.as_str()).len() > 0 {
            r.push(MetadataEntry { key: k.clone(), value: v.clone() });
            assert(entries_view(r@) =~= listed_metadata(metadata@.take(i + 1)));
        }
        i = i + 1;
    }
    assert(metadata@.take(metadata@.len() as int) =~= metadata@);
    r
}

/// The page boxes the summary lists: MediaBox, which every page has, then
/// those of TrimBox, BleedBox and CropBox that every page has.
pub open spec fn boxes_text(all_trim: bool, all_bleed: bool, all_crop: bool) -> Seq<Seq<char>> {
    seq!["MediaBox"@] + (if all_trim { seq!["TrimBox"@] } else { Seq::empty() }) + (if all_bleed {
        seq!["BleedBox"@]
    } else {
        Seq::empty()
    }) + (if all_crop { seq!["CropBox"@] } else { Seq::empty() })
}

/// The page boxes present on every page, given which optional boxes every
/// page has.
pub fn page_boxes(all_trim: bool, all_bleed: bool, all_crop: bool) -> (r: Vec<String>)
    ensures
        strings_view(r@) == boxes_text(all_trim, all_bleed, all_crop),
{
    let mut r: Vec<String> = Vec::new();
    r.push(owned("MediaBox"));
    if all_trim {
        r.push(owned("TrimBox"));
    }
    if all_bleed {
        r.push(owned("BleedBox"));
    }
    if all_crop {
        r.push(owned("CropBox"));
    }
    proof {
        reveal_strlit("MediaBox");
        reveal_strlit("TrimBox");
        reveal_strlit("BleedBox");
        reveal_strlit("CropBox");
    }
    assert(strings_view(r@) =~= boxes_text(all_trim, all_bleed, all_crop));
    r
}

proof fn lemma_push_contains(s: Seq<Seq<char>>, a: Seq<char>, x: Seq<char>)
    ensures
        s.push(a).contains(x) <==> s.contains(x) || x == a,
{
    if s.push(a).contains(x) && x != a {
        let k = choose|k: int| 0 <= k < s.push(a).len() && s.push(a)[k] == x;
        assert(s[k] == x);
    }
    if s.contains(x) {
        let k = choose|k: int| 0 <= k < s.len() && s[k] == x;
        assert(s.push(a)[k] == x);
    }
    if x == a {
        assert(s.push(a)[s.len() as int] == x);
    }
}

/// In increasing order of `str`, with no repeats.
pub open spec fn strictly_sorted(s: Seq<Seq<char>>) -> bool {
    forall|i: int, j: int| 0 <= i < j < s.len() ==> lex_lt(#[trigger] s[i], #[trigger] s[j])
}

/// The distinct strings of `v`, sorted (the image colour spaces the summary
/// lists).
pub fn distinct_sorted(v: Vec<String>) -> (r: Vec<String>)
    ensures
        strictly_sorted(strings_view(r@)),
        forall|x: Seq<char>| strings_view(r@).contains(x) <==> strings_view(v@).contains(x),
{
    let ghost vv = strings_view(v@);
    let s = sort_strings(v);
    let ghost sv = strings_view(s@);
    let mut r: Vec<String> = Vec::new();
    let mut last: Vec<char> = Vec::new();
    let mut i: usize = 0;
    while i < s.len()
        invariant
            i <= s@.len(),
            sv == strings_view(s@),
            sorted_lines(sv),
            strictly_sorted(strings_view(r@)),
            forall|x: Seq<char>| strings_view(r@).contains(x) <==> sv.take(i as int).contains(x),
            i > 0 ==> r@.len() > 0 && last@ == sv[i - 1] && strings_view(r@).last() == sv[i - 1],
            i == 0 ==> r@.len() == 0,
        decreases s.len() - i,
    {
        let cur = chars_of(s[i].as_str());
        let ghost before = strings_view(r@);
        assert(sv[i as int] == s@[i as int]@);
        if i == 0 || !chars_eq(&last, &cur) {
            r.push(s[i].clone());
            assert(strings_view(r@) =~= before.push(sv[i as int]));
            if i > 0 {
                proof {
                    lemma_lex_total(sv[i - 1], sv[i as int]);
                    assert(!lex_lt(sv[i as int], sv[i - 1]));
                    assert(lex_lt(sv[i - 1], sv[i as int]));
                    assert forall|a: int, b: int| 0 <= a < b < strings_view(r@).len() implies lex_lt(
                        #[trigger] strings_view(r@)[a],
                        #[trigger] strings_view(r@)[b],
                    ) by {
                        if b == before.len() && a < before.len() - 1 {
                            lemma_lex_trans(before[a], before.last(), sv[i as int]);
                        }
                    }
                }
            }
            last = cur;
        }
        assert forall|x: Seq<char>| strings_view(r@).contains(x) <==> sv.take(i + 1).contains(x) by {
            assert(sv.take(i + 1) =~= sv.take(i as int).push(sv[i as int]));
            lemma_push_contains(sv.take(i as int), sv[i as int], x);
            lemma_push_contains(before, sv[i as int], x);
            if i > 0 {
                assert(sv.take(i as int)[i - 1] == sv[i - 1]);
                assert(before[before.len() - 1] == before.last());
            }
        }
        i = i + 1;
    }
    proof {
        assert(sv.take(s@.len() as int) =~= sv);
        assert forall|x: Seq<char>| sv.contains(x) <==> vv.contains(x) by {
            vstd::seq_lib::to_multiset_contains(sv, x);
            vstd::seq_lib::to_multiset_contains(vv, x);
        }
    }
    r
}

/// `p` occurs in `s`.
pub open spec fn occurs_in(s: Seq<char>, p: Seq<char>) -> bool {
    exists|k: int| 0 <= k && k + p.len() <= s.len() && #[trigger] s.subrange(k, k + p.len()) == p
}

/// `s` is white space through and through (`trim` leaves nothing of it).
pub open spec fn blank(s: Seq<char>) -> bool {
    forall|k: int| 0 <= k < s.len() ==> is_ws(#[trigger] s[k])
}

/// The warnings of a summary, in their order: fonts not embedded; when
/// there are images, those below 300 DPI (`low_dpi` of them) and RGB ones;
/// no extractable text on any page; a page without TrimBox; no title.
pub open spec fn warnings_text(
    fonts_embedded: Seq<bool>,
    low_dpi: nat,
    image_spaces: Seq<Seq<char>>,
    page_texts: Seq<Seq<char>>,
    pages_with_trim: Seq<bool>,
    title: Seq<char>,
) -> Seq<Seq<char>> {
    let images = image_spaces.len() > 0;
    (if exists|i: int| 0 <= i < fonts_embedded.len() && !#[trigger] fonts_embedded[i] {
        seq!["there are non-embedded fonts"@]
    } else {
        Seq::empty()
    }) + (if images && low_dpi > 0 {
        seq![nat_text(low_dpi) + " image(s) below 300 DPI"@]
    } else {
        Seq::empty()
    }) + (if images && exists|i: int| 0 <= i < image_spaces.len() && occurs_in(#[trigger] image_spaces[i], "RGB"@) {
        seq!["there are RGB images (offset printing requires CMYK)"@]
    } else {
        Seq::empty()
    }) + (if forall|i: int| 0 <= i < page_texts.len() ==> blank(#[trigger] page_texts[i]) {
        seq!["the document has no extractable text"@]
    } else {
        Seq::empty()
    }) + (if exists|i: int| 0 <= i < pages_with_trim.len() && !#[trigger] pages_with_trim[i] {
        seq!["TrimBox missing on some page"@]
    } else {
        Seq::empty()
    }) + (if title.len() == 0 {
        seq!["no title in the metadata"@]
    } else {
        Seq::empty()
    })
}

/// Whether "RGB" occurs in `s`.
fn mentions_rgb(s: &Vec<char>) -> (r: bool)
    ensures
        r == occurs_in(s@, "RGB"@),
{
    proof {
        reveal_strlit("RGB");
        assert("RGB"@ =~= seq!['R', 'G', 'B']);
    }
    if s.len() < 3 {
        return false;
    }
    let mut k: usize = 0;
    while k <= s.len() - 3
        invariant
            s@.len() >= 3,
            "RGB"@ == seq!['R', 'G', 'B'],
            forall|j: int| 0 <= j < k && j + 3 <= s@.len() ==> #[trigger] s@.subrange(j, j + 3) != "RGB"@,
        decreases s.len() - k,
    {
        if s[k] == 'R' && s[k + 1] == 'G' && s[k + 2] == 'B' {
            assert(s@.subrange(k as int, k + 3) =~= "RGB"@);
            return true;
        }
        assert(s@.subrange(k as int, k + 3)[0] == s@[k as int]);
        assert(s@.subrange(k as int, k + 3)[1] == s@[k + 1]);
        assert(s@.subrange(k as int, k + 3)[2] == s@[k + 2]);
        k = k + 1;
    }
    false
}

/// Whether `s` is all white space.
fn is_blank(s: &Vec<char>) -> (r: bool)
    ensures
        r == blank(s@),
{
    let mut k: usize = 0;
    while k < s.len()
        invariant
            k <= s@.len(),
            forall|j: int| 0 <= j < k ==> is_ws(#[trigger] s@[j]),
        decreases s.len() - k,
    {
        if !char_is_ws(s[k]) {
            return false;
        }
        k = k + 1;
    }
    true
}

/// The warnings of a document summary, from whether each font is embedded,
/// how many images are below 300 DPI, each image's colour space, each page's
/// text, whether each page has a TrimBox, and the title.
pub fn summary_warnings(
    fonts_embedded: &Vec<bool>,
    low_dpi: usize,
    image_spaces: &Vec<String>,
    page_texts: &Vec<String>,
    pages_with_trim: &Vec<bool>,
    title: &str,
) -> (r: Vec<String>)
    ensures
        strings_view(r@) == warnings_text(
            fonts_embedded@,
            low_dpi as nat,
            strings_view(image_spaces@),
            strings_view(page_texts@),
            pages_with_trim@,
            title@,
        ),
{
    let ghost spaces = strings_view(image_spaces@);
    let ghost texts = strings_view(page_texts@);
    let mut r: Vec<String> = Vec::new();
    let mut unembedded = false;
    let mut i: usize = 0;
    while i < fonts_embedded.len()
        invariant
            i <= fonts_embedded@.len(),
            unembedded == exists|j: int| 0 <= j < i && !#[trigger] fonts_embedded@[j],
        decreases fonts_embedded.len() - i,
    {
        if !fonts_embedded[i] {
            unembedded = true;
        }
        i = i + 1;
    }
    if unembedded {
        r.push(owned("there are non-embedded fonts"));
    }
    let ghost w1 = strings_view(r@);
    if image_spaces.len() > 0 {
        if low_dpi > 0 {
            let mut t: Vec<char> = Vec::new();
            push_usize(&mut t, low_dpi);
            crate::text::push_str(&mut t, " image(s) below 300 DPI");
            r.push(string_of(&t));
        }
    }
    let ghost w2 = strings_view(r@);
    let mut rgb = false;
    let mut i: usize = 0;
    while i < image_spaces.len()
        invariant
            i <= image_spaces@.len(),
            spaces == strings_view(image_spaces@),
            rgb == exists|j: int| 0 <= j < i && occurs_in(#[trigger] spaces[j], "RGB"@),
        decreases image_spaces.len() - i,
    {
        let cs = chars_of(image_spaces[i].as_str());
        assert(cs@ == spaces[i as int]);
        if mentions_rgb(&cs) {
            rgb = true;
        }
        i = i + 1;
    }
    if image_spaces.len() > 0 && rgb {
        r.push(owned("there are RGB images (offset printing requires CMYK)"));
    }
    let ghost w3 = strings_view(r@);
    let mut no_text = true;
    let mut i: usize = 0;
    while i < page_texts.len()
        invariant
            i <= page_texts@.len(),
            texts == strings_view(page_texts@),
            no_text == forall|j: int| 0 <= j < i ==> blank(#[trigger] texts[j]),
        decreases page_texts.len() - i,
    {
        let t = chars_of(page_texts[i].as_str());
        assert(t@ == texts[i as int]);
        if !is_blank(&t) {
            no_text = false;
        }
        i = i + 1;
    }
    if no_text {
        r.push(owned("the document has no extractable text"));
    }
    let ghost w4 = strings_view(r@);
    let mut trim_missing = false;
    let mut i: usize = 0;
    while i < pages_with_trim.len()
        invariant
            i <= pages_with_trim@.len(),
            trim_missing == exists|j: int| 0 <= j < i && !#[trigger] pages_with_trim@[j],
        decreases pages_with_trim.len() - i,
    {
        if !pages_with_trim[i] {
            trim_missing = true;
        }
        i = i + 1;
    }
    if trim_missing {
        r.push(owned("TrimBox missing on some page"));
    }
    let ghost w5 = strings_view(r@);
    if chars_of(title).len() == 0 {
        r.push(owned("no title in the metadata"));
    }
    proof {
        reveal_strlit("there are non-embedded fonts");
        reveal_strlit(" image(s) below 300 DPI");
        reveal_strlit("there are RGB images (offset printing requires CMYK)");
        reveal_strlit("the document has no extractable text");
        reveal_strlit("TrimBox missing on some page");
        reveal_strlit("no title in the metadata");
    }
    assert(strings_view(r@) =~= warnings_text(
        fonts_embedded@,
        low_dpi as nat,
        spaces,
        texts,
        pages_with_trim@,
        title@,
    ));
    r
}

} // verus!
