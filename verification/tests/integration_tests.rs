use megastore_search::index::InvertedIndex;
use megastore_search::model::Product;
use megastore_search::search::Searcher;

fn catalog() -> InvertedIndex {
    let mut idx = InvertedIndex::new();
    idx.add_product(Product::new(
        1,
        "Smartphone SuperX 64GB",
        None,
        Some("Eletrônicos"),
        Some("câmera dupla"),
    ));
    idx.add_product(Product::new(2, "Camiseta Polo", None, Some("Vestuário"), Some("algodão")));
    idx.add_product(Product::new(3, "Smart TV", None, Some("Eletrônicos"), Some("4K UHD Smart TV")));
    idx
}

fn shirts() -> InvertedIndex {
    let mut idx = InvertedIndex::new();
    idx.add_product(Product::new(10, "Camisa Preta", None, None, None));
    idx.add_product(Product::new(11, "Camisa Branca", None, None, None));
    idx
}

#[test]
fn basic_index_and_search() {
    let mut idx = InvertedIndex::new();
    idx.add_product(Product::new(1, "Smartphone SuperX 64GB", Some("ZenTech"), Some("Eletrônicos"), Some("Ótima câmera")));
    idx.add_product(Product::new(2, "Fone de Ouvido XPro", Some("SoundInc"), Some("Eletrônicos"), Some("Cancelamento de ruído")));
    idx.add_product(Product::new(3, "Camiseta Esportiva", Some("Sporty"), Some("Vestuário"), Some("Secagem rápida")));

    let searcher = Searcher::new(&idx);
    let res = searcher.search_products("smartphone", 5);

    assert!(!res.is_empty());
    assert_eq!(res[0].0.id, 1);
}

#[test]
fn search_filters_by_tokens() {
    let mut idx = InvertedIndex::new();
    idx.add_product(Product::new(10, "Camisa Preta", Some("MarcaA"), Some("Vestuário"), None));
    idx.add_product(Product::new(11, "Camisa Branca", Some("MarcaB"), Some("Vestuário"), None));

    let searcher = Searcher::new(&idx);
    let res = searcher.search_products("branca", 10);
    assert_eq!(res.len(), 1);
    assert_eq!(res[0].0.id, 11);
}

#[test]
fn query_terms_select_the_records_that_contain_them() {
    let idx = catalog();
    let searcher = Searcher::new(&idx);
    let res = searcher.search_products("smartphone 4k", 10);
    let ids: Vec<u32> = res.iter().map(|hit| hit.0.id).collect();
    assert_eq!(ids, vec![1, 3]);
    assert_eq!(res[0].1, 1);
    assert_eq!(res[1].1, 1);
}

#[test]
fn query_for_one_colour_finds_one_shirt() {
    let idx = shirts();
    let searcher = Searcher::new(&idx);
    let res = searcher.search_products("branca", 10);
    assert_eq!(res.len(), 1);
    assert_eq!(res[0].0.id, 11);
    assert_eq!(res[0].0.name, "Camisa Branca");
    assert_eq!(res[0].1, 1);
}

#[test]
fn empty_query_finds_nothing() {
    let idx = catalog();
    let searcher = Searcher::new(&idx);
    assert!(searcher.search_products("", 10).is_empty());
    assert!(searcher.search("", 10).is_empty());
}

#[test]
fn removed_record_is_no_longer_found() {
    let mut idx = shirts();
    idx.remove_product(10);
    let searcher = Searcher::new(&idx);
    let res = searcher.search_products("camisa", 10);
    assert_eq!(res.len(), 1);
    assert_eq!(res[0].0.id, 11);
}

#[test]
fn query_of_unknown_words_finds_nothing() {
    let idx = catalog();
    let searcher = Searcher::new(&idx);
    assert!(searcher.search_products("geladeira frost", 10).is_empty());
}

#[test]
fn query_of_stopwords_and_punctuation_finds_nothing() {
    let idx = catalog();
    let searcher = Searcher::new(&idx);
    assert!(searcher.search_products("de para com", 10).is_empty());
    assert!(searcher.search_products("?!... --", 10).is_empty());
}
