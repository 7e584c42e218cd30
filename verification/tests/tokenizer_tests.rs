use megastore_search::tokenizer::is_listed;
use megastore_search::tokenizer::normalize;
use megastore_search::tokenizer::stopword_list;
use megastore_search::tokenizer::tokenize;

fn strings(words: &[&str]) -> Vec<String> {
    words.iter().map(|w| w.to_string()).collect()
}

#[test]
fn tokenize_empty_text_has_no_terms() {
    assert!(tokenize("").is_empty());
}

#[test]
fn tokenize_blank_or_punctuation_has_no_terms() {
    assert!(tokenize("  \t\n ").is_empty());
    assert!(tokenize("!!!").is_empty());
}

#[test]
fn tokenize_is_repeatable() {
    let text = "Smartphone com câmera dupla, 64GB!";
    assert_eq!(tokenize(text), tokenize(text));
    assert_eq!(tokenize(text), strings(&["smartphon", "câm", "dupl", "64gb"]));
}

#[test]
fn tokenize_lowercases_before_it_stems() {
    assert_eq!(tokenize("CAMISAS"), strings(&["camis"]));
    assert_eq!(tokenize("Ótima Câmera"), strings(&["ótim", "câm"]));
}

#[test]
fn tokenize_turns_punctuation_into_separators() {
    assert_eq!(tokenize("camisa-preta"), strings(&["camis", "pret"]));
    assert_eq!(tokenize("Smart TV 55\""), strings(&["smart", "tv", "55"]));
    assert_eq!(tokenize("100% algodão"), strings(&["100", "algodã"]));
}

#[test]
fn tokenize_keeps_underscores_inside_words() {
    assert_eq!(tokenize("foo_bar baz"), strings(&["foo_b", "baz"]));
}

#[test]
fn tokenize_splits_on_runs_of_whitespace() {
    assert_eq!(tokenize("  smart \t\n tv  "), strings(&["smart", "tv"]));
}

#[test]
fn tokenize_drops_stopwords() {
    assert_eq!(tokenize("Fone de Ouvido XPro"), strings(&["fon", "ouv", "xpro"]));
    assert_eq!(tokenize("a b c de"), strings(&["b", "c"]));
    assert!(tokenize("a o as os um uma de do da dos das em para por com sem e ou que se no na nos nas")
        .is_empty());
}

#[test]
fn tokenize_keeps_duplicates_in_order() {
    assert_eq!(tokenize("4K UHD Smart TV smart"), strings(&["4k", "uhd", "smart", "tv", "smart"]));
}

#[test]
fn tokenize_stems_each_word() {
    assert_eq!(tokenize("camisas"), strings(&["camis"]));
    assert_eq!(tokenize("Cancelamento de ruído"), strings(&["cancel", "ruíd"]));
}

#[test]
fn stopwords_are_tested_before_stemming() {
    // "nasa" is no stopword; that its stem reads like one does not drop it.
    assert_eq!(tokenize("nasa"), strings(&["nas"]));
    assert_eq!(tokenize("NASA nas"), strings(&["nas"]));
}

#[test]
fn terms_hold_no_stopword_where_no_stem_reads_like_one() {
    let list = stopword_list();
    let terms = tokenize("Camisa de algodão para o homem e a mulher, com ou sem gola");
    assert_eq!(terms, strings(&["camis", "algodã", "hom", "mulh", "gol"]));
    for term in terms.iter() {
        assert!(!is_listed(&list, term));
    }
}

#[test]
fn normalize_filters_then_stems() {
    let candidates = strings(&["camisas", "de", "algodão", "nas", "nasa"]);
    assert_eq!(normalize(&candidates), strings(&["camis", "algodã", "nas"]));
    assert!(normalize(&Vec::new()).is_empty());
}

#[test]
fn stopword_list_is_the_fixed_list() {
    let list = stopword_list();
    assert_eq!(list.len(), 24);
    assert_eq!(list[0], "a");
    assert_eq!(list[23], "nas");
    assert!(is_listed(&list, &"para".to_string()));
    assert!(is_listed(&list, &"que".to_string()));
    assert!(!is_listed(&list, &"camisa".to_string()));
    assert!(!is_listed(&list, &"A".to_string()));
    assert!(!is_listed(&list, &"".to_string()));
}
