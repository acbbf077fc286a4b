use pdfl::textns::{format_matches, pattern_matches, personal_data, phone_valid, split_paragraphs, split_sentences};

#[test]
fn sentences_are_split_after_their_punctuation() {
    assert_eq!(split_sentences("Primeira frase. Segunda!  Terceira?\nFim"), vec!["Primeira frase", "Segunda", "Terceira", "Fim"]);
    assert_eq!(split_sentences("   "), Vec::<String>::new());
}

#[test]
fn paragraphs_are_split_at_blank_lines() {
    assert_eq!(split_paragraphs("um\ndois\n\n  três \n \n\nquatro\n"), vec!["um\ndois", "três", "quatro"]);
}

#[test]
fn patterns_match_anywhere_or_not_at_all() {
    assert_eq!(pattern_matches(r"\d{3}", "abc 1234"), Some(true));
    assert_eq!(pattern_matches(r"^\d+$", "abc"), Some(false));
    assert_eq!(pattern_matches("(", "abc"), None);
}

#[test]
fn a_format_must_match_the_whole_text() {
    assert_eq!(format_matches("AB-123", r"[A-Z]{2}-\d+"), Some(true));
    assert_eq!(format_matches("xAB-123", r"[A-Z]{2}-\d+"), Some(false));
    assert_eq!(format_matches("a|b", "a|b"), Some(false));
    assert_eq!(format_matches("a", "a|b"), Some(true));
    assert_eq!(format_matches("a", "[a"), None);
}

#[test]
fn phones_need_the_pattern_and_ten_or_eleven_digits() {
    assert!(phone_valid("(11) 98765-4321"));
    assert!(phone_valid(" 1187654321 "));
    assert!(!phone_valid("98765-4321"));
    assert!(!phone_valid("(11) 98765-432"));
}

#[test]
fn personal_data_is_labelled_by_kind_in_order() {
    let text = "Contato: joao@exemplo.com, (11) 98765-4321. CPF 111.444.777-35, falso 111.444.777-36, CNPJ 11.222.333/0001-81.";
    assert_eq!(
        personal_data(text),
        vec![
            "CPF: 111.444.777-35",
            "CNPJ: 11.222.333/0001-81",
            "E-mail: joao@exemplo.com",
            "Phone: (11) 98765-4321",
        ]
    );
    assert!(personal_data("nada aqui").is_empty());
}

#[test]
fn text_is_found_after_normalising_both_sides() {
    assert!(pdfl::textns::contains_normalized("Valor   TOTAL:\n R$ 10", "valor total"));
    assert!(!pdfl::textns::contains_normalized("Valor TOTAL", "valor  parcial"));
    assert!(pdfl::textns::contains_normalized("abc", ""));
}
