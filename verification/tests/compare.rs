use pdfl::compare::{align, align_pages, match_table, prepare, texts_alike};

fn table(rows: &[&str]) -> (Vec<Vec<bool>>, usize) {
    let m = rows.first().map(|r| r.len()).unwrap_or(0);
    (rows.iter().map(|r| r.chars().map(|c| c == 'x').collect()).collect(), m)
}

#[test]
fn identical_documents_align_page_for_page() {
    let (mat, m) = table(&["x..", ".x.", "..x"]);
    assert_eq!(align(&mat, m), vec![(0, 0), (1, 1), (2, 2)]);
}

#[test]
fn an_inserted_page_is_skipped() {
    let (mat, m) = table(&["x...", "..x.", "...x"]);
    assert_eq!(align(&mat, m), vec![(0, 0), (1, 2), (2, 3)]);
}

#[test]
fn crossing_matches_keep_the_order() {
    let (mat, m) = table(&[".x", "x."]);
    let pairs = align(&mat, m);
    assert_eq!(pairs.len(), 1);
    assert_eq!(pairs, vec![(1, 0)]);
}

#[test]
fn nothing_matches_nothing() {
    assert_eq!(align(&vec![], 3), vec![]);
    let (mat, m) = table(&["...", "..."]);
    assert_eq!(align(&mat, m), vec![]);
}

fn pages(v: &[&str]) -> Vec<String> {
    v.iter().map(|s| s.to_string()).collect()
}

#[test]
fn page_texts_match_on_three_fifths_of_their_words() {
    assert!(texts_alike("same text", "same text"));
    assert!(texts_alike("  ", "\n"));
    // 3 shared of 5 distinct words in all: exactly three fifths.
    assert!(texts_alike("a b c d", "a b c e"));
    // 2 shared of 4 distinct words in all: a half.
    assert!(!texts_alike("a b c", "a b d"));
    // Repeated words count once.
    assert!(texts_alike("a a a b", "a b b"));
    assert!(!texts_alike("", "word"));
}

#[test]
fn pages_far_apart_never_match() {
    let mut a = pages(&["x"; 30]);
    a[0] = "only here".to_string();
    let mut b = pages(&["y"; 30]);
    b[29] = "only here".to_string();
    let t = match_table(&a, &b);
    assert!(!t[0][29]);
    assert!(t[0].iter().all(|m| !m));
    let near = match_table(&pages(&["p"]), &pages(&["q", "q", "p"]));
    assert_eq!(near, vec![vec![false, false, true]]);
}

#[test]
fn an_inserted_page_is_left_out_of_the_alignment() {
    let a = pages(&["one two three", "four five six"]);
    let b = pages(&["one two three", "new page here", "four five six"]);
    assert_eq!(align_pages(&a, &b), vec![(0, 0), (1, 2)]);
}

#[test]
fn ignora_datas_e_normaliza() {
    let a = "Emitido em 01/02/2026 VALOR TOTAL";
    let b = "Emitido em 15/03/2026 valor  total";
    assert_eq!(prepare(a, true, true), prepare(b, true, true));
    assert_eq!(prepare(a, true, true), "emitido em <data> valor total");
    assert_ne!(prepare(a, false, false), prepare(b, false, false));
}

#[test]
fn every_date_form_is_masked() {
    assert_eq!(
        prepare("2026-03-15, 5 de março de 2026, D:20260802173622 e 1/2/26", true, false),
        "<data>, <data>, <data> e <data>"
    );
    assert_eq!(prepare("  A  b ", false, true), "a b");
    assert_eq!(prepare("01/02/2026", false, false), "01/02/2026");
}
