use pdfl::textns::{date_from_matches, date_valid, edit_distance, word_edit_distance};
use pdfl::codesns::gtin_valid;
use pdfl::datans::{find_record, glossary_terms, lookup_value, parse_csv};
use pdfl::textns::{cnpj_valid, cpf_valid, detect_language, normalize, words};

#[test]
fn normalization_and_words() {
    assert_eq!(normalize("  Olá   MUNDO \n novo "), "olá mundo novo");
    assert_eq!(words("Olá, mundo! (teste)"), vec!["Olá", "mundo", "teste"]);
}

#[test]
fn words_drop_what_is_only_punctuation() {
    assert_eq!(words("-- a --- b! ..."), vec!["a", "b"]);
    assert!(words("   ").is_empty());
}

#[test]
fn cpf() {
    assert!(cpf_valid("529.982.247-25"));
    assert!(cpf_valid("52998224725"));
    assert!(!cpf_valid("529.982.247-26"));
    assert!(!cpf_valid("111.111.111-11"));
    assert!(!cpf_valid("123"));
}

#[test]
fn cnpj() {
    assert!(cnpj_valid("11.222.333/0001-81"));
    assert!(cnpj_valid("11222333000181"));
    assert!(!cnpj_valid("11.222.333/0001-82"));
    assert!(!cnpj_valid("00.000.000/0000-00"));
}

#[test]
fn languages() {
    assert_eq!(detect_language("o contrato é válido e não pode ser alterado para os fins"), "pt");
    assert_eq!(detect_language("the quick brown fox is in the yard with the dog"), "en");
    assert_eq!(detect_language("xyzzy 123"), "unknown");
}

#[test]
fn spanish_and_ties() {
    assert_eq!(detect_language("El perro y la casa de los niños"), "es");
    // "que" and "para" are stop words of both Portuguese and Spanish: a tie goes to Portuguese.
    assert_eq!(detect_language("que para"), "pt");
}

#[test]
fn gtin() {
    assert!(gtin_valid("7891234567895"));
    assert!(gtin_valid("96385074"));
    assert!(!gtin_valid("7891234567890"));
    assert!(!gtin_valid("789123"));
    assert!(!gtin_valid("78912345678AB"));
}

#[test]
fn gtin_other_lengths() {
    assert!(gtin_valid("036000291452")); // UPC-A
    assert!(gtin_valid("10012345678902")); // GTIN-14
    assert!(!gtin_valid("7891234567895 "));
}

#[test]
fn csv_com_aspas() {
    let rows = parse_csv("a,b\n\"x, y\",\"com \"\"aspas\"\"\"\n\nfim,1\n");
    assert_eq!(rows.len(), 3);
    assert_eq!(rows[1], vec!["x, y", "com \"aspas\""]);
    assert_eq!(rows[2], vec!["fim", "1"]);
}

#[test]
fn csv_edges() {
    assert!(parse_csv("").is_empty());
    assert_eq!(parse_csv("a\r\nb"), vec![vec!["a"], vec!["b"]]);
    assert_eq!(parse_csv("\"multi\nline\",x"), vec![vec!["multi\nline", "x"]]);
    assert_eq!(parse_csv("a,\n"), vec![vec!["a", ""]]);
}

#[test]
fn dates() {
    assert!(date_valid("29/02/2024", None).unwrap());
    assert!(!date_valid("29/02/2023", None).unwrap());
    assert!(!date_valid("31/04/2026", None).unwrap());
    assert!(date_valid("2026-08-02", None).unwrap());
    assert!(date_valid("02/08/2026", Some("dd/mm/aaaa")).unwrap());
    assert!(!date_valid("2026-08-02", Some("dd/mm/aaaa")).unwrap());
    assert!(!date_valid("agosto de 2026", None).unwrap());
    assert!(date_valid("bla", Some("xx")).is_err());
}

#[test]
fn date_edges() {
    assert!(date_valid("  1/1/2000 ", None).unwrap());
    assert!(date_valid("2000-02-29", Some("aaaa-mm-dd")).unwrap());
    assert!(!date_valid("1900-02-29", None).unwrap());
    assert!(!date_valid("2026-13-01", None).unwrap());
    assert!(!date_valid("00/01/2026", None).unwrap());
    assert!(!date_valid("01/01/0000", None).unwrap());
    assert!(!date_valid("2026-8-02", None).unwrap());
    assert!(!date_valid("02/08/2026", Some("aaaa-mm-dd")).unwrap());
    let e = date_valid("x", Some("mm/dd")).unwrap_err();
    assert_eq!(
        e.message,
        "text::validate_date_format: unknown format 'mm/dd' (use dd/mm/aaaa or aaaa-mm-dd)"
    );
}

#[test]
fn the_date_verdict_follows_the_pattern_matches() {
    assert!(date_from_matches("31/12/1999", None, true, false).unwrap());
    assert!(!date_from_matches("31/12/1999", None, false, false).unwrap());
    assert!(!date_from_matches("31/12/1999", None, false, true).unwrap());
    assert!(date_from_matches("1999-12-31", None, false, true).unwrap());
    assert!(!date_from_matches("1999-12-31", Some("dd/mm/aaaa"), false, true).unwrap());
}

#[test]
fn edit_distances() {
    assert_eq!(edit_distance("kitten", "sitting"), 3);
    assert_eq!(edit_distance("", "abc"), 3);
    assert_eq!(edit_distance("abc", ""), 3);
    assert_eq!(edit_distance("abc", "abc"), 0);
    assert_eq!(edit_distance("flaw", "lawn"), 2);
    assert_eq!(edit_distance("ação", "acao"), 2);
    assert_eq!(edit_distance("", ""), 0);
}

#[test]
fn word_edit_distances() {
    let w = |s: &str| s.split_whitespace().map(String::from).collect::<Vec<String>>();
    assert_eq!(word_edit_distance(&w("the quick brown fox"), &w("the quick red fox")), 1);
    assert_eq!(word_edit_distance(&w("a b c"), &w("a c")), 1);
    assert_eq!(word_edit_distance(&w(""), &w("a b")), 2);
    assert_eq!(word_edit_distance(&w("a b"), &w("a b")), 0);
}

#[test]
fn glossary_terms_skip_blank_lines_and_comments() {
    assert_eq!(
        glossary_terms("# terms\n  Paracetamol \n\n#x\nDipirona\r\n"),
        vec!["Paracetamol".to_string(), "Dipirona".to_string()]
    );
    assert!(glossary_terms("").is_empty());
}

#[test]
fn lookups_in_a_table() {
    let rows = parse_csv("code,name\n123,Foo\n456\n789,Bar Baz\n");
    assert_eq!(lookup_value(&rows, "123"), Some("Foo".to_string()));
    assert_eq!(lookup_value(&rows, "456"), None);
    assert_eq!(lookup_value(&rows, "000"), None);
    assert_eq!(find_record(&rows, " 789 "), Some(3));
    assert_eq!(find_record(&rows, "bar"), Some(3));
    assert_eq!(find_record(&rows, "ba"), None);
    assert_eq!(find_record(&rows, "code"), None);
    assert_eq!(find_record(&rows, "FOO"), Some(1));
}
