use megastore_search::frequency::term_frequencies;
use megastore_search::index::record_tokens;
use megastore_search::index::InvertedIndex;
use megastore_search::index::Posting;
use megastore_search::model::Product;
use megastore_search::postings::retain_others;
use megastore_search::postings::upsert_posting;
use megastore_search::table::PostingsMap;

fn term(text: &str) -> String {
    text.to_string()
}

fn postings_of(snapshot: &PostingsMap, text: &str) -> Vec<Posting> {
    match snapshot.get(&term(text)) {
        Some(list) => list.clone(),
        None => Vec::new(),
    }
}

#[test]
fn new_index_is_empty() {
    let idx = InvertedIndex::new();
    assert_eq!(idx.get_index_snapshot().len(), 0);
    assert!(idx.get_product(&1).is_none());
    let other = InvertedIndex::default();
    assert_eq!(other.get_index_snapshot().len(), 0);
    assert!(other.get_product(&1).is_none());
}

#[test]
fn product_new_copies_its_fields() {
    let p = Product::new(7, "Smart TV", Some("ViewTech"), None, Some("4K UHD"));
    assert_eq!(p.id, 7);
    assert_eq!(p.name, "Smart TV");
    assert_eq!(p.brand, Some("ViewTech".to_string()));
    assert_eq!(p.category, None);
    assert_eq!(p.description, Some("4K UHD".to_string()));
    let q = p.clone();
    assert_eq!(q.id, 7);
    assert_eq!(q.name, "Smart TV");
    assert_eq!(q.brand, Some("ViewTech".to_string()));
    assert_eq!(q.category, None);
    assert_eq!(q.description, Some("4K UHD".to_string()));
}

#[test]
fn record_tokens_follow_the_field_order() {
    let p = Product::new(3, "Smart TV", Some("Camisa"), Some("Eletrônicos"), Some("4K UHD Smart TV"));
    let expected: Vec<String> =
        ["smart", "tv", "camis", "eletrôn", "4k", "uhd", "smart", "tv"].iter().map(|t| term(t)).collect();
    assert_eq!(record_tokens(&p), expected);
    let bare = Product::new(4, "Smart TV", None, None, None);
    assert_eq!(record_tokens(&bare), vec![term("smart"), term("tv")]);
}

#[test]
fn term_frequencies_count_in_order_of_first_occurrence() {
    let tokens: Vec<String> = ["smart", "tv", "4k", "smart", "tv", "smart"].iter().map(|t| term(t)).collect();
    let counts = term_frequencies(&tokens);
    let seen: Vec<(String, u64)> = counts.iter().map(|c| (c.term.clone(), c.count)).collect();
    assert_eq!(seen, vec![(term("smart"), 3), (term("tv"), 2), (term("4k"), 1)]);
    assert!(term_frequencies(&Vec::new()).is_empty());
}

#[test]
fn add_counts_occurrences_across_all_fields() {
    let mut idx = InvertedIndex::new();
    idx.add_product(Product::new(3, "Smart TV", None, Some("Eletrônicos"), Some("4K UHD Smart TV")));
    let snapshot = idx.get_index_snapshot();
    assert_eq!(postings_of(&snapshot, "smart"), vec![Posting { product_id: 3, freq: 2 }]);
    assert_eq!(postings_of(&snapshot, "tv"), vec![Posting { product_id: 3, freq: 2 }]);
    assert_eq!(postings_of(&snapshot, "4k"), vec![Posting { product_id: 3, freq: 1 }]);
    assert_eq!(postings_of(&snapshot, "uhd"), vec![Posting { product_id: 3, freq: 1 }]);
    assert_eq!(postings_of(&snapshot, "eletrôn"), vec![Posting { product_id: 3, freq: 1 }]);
    assert_eq!(snapshot.len(), 5);
}

#[test]
fn adding_the_same_record_twice_changes_nothing() {
    let mut once = InvertedIndex::new();
    once.add_product(Product::new(10, "Camisa Preta camisa", None, None, None));
    let mut twice = InvertedIndex::new();
    twice.add_product(Product::new(10, "Camisa Preta camisa", None, None, None));
    twice.add_product(Product::new(10, "Camisa Preta camisa", None, None, None));
    let a = once.get_index_snapshot();
    let b = twice.get_index_snapshot();
    assert_eq!(a.len(), 2);
    assert_eq!(b.len(), 2);
    assert_eq!(postings_of(&b, "camis"), vec![Posting { product_id: 10, freq: 2 }]);
    assert_eq!(postings_of(&b, "pret"), vec![Posting { product_id: 10, freq: 1 }]);
    assert_eq!(postings_of(&a, "camis"), postings_of(&b, "camis"));
    assert_eq!(postings_of(&a, "pret"), postings_of(&b, "pret"));
}

#[test]
fn adding_a_new_version_replaces_the_old_postings() {
    let mut idx = InvertedIndex::new();
    idx.add_product(Product::new(10, "Camisa Preta", Some("Polo"), None, None));
    idx.add_product(Product::new(11, "Camisa Preta", None, None, None));
    idx.add_product(Product::new(10, "Camisa Branca", None, Some("Smart"), None));
    let snapshot = idx.get_index_snapshot();
    assert_eq!(postings_of(&snapshot, "pret"), vec![Posting { product_id: 11, freq: 1 }]);
    assert!(snapshot.get(&term("pol")).is_none());
    assert_eq!(postings_of(&snapshot, "branc"), vec![Posting { product_id: 10, freq: 1 }]);
    assert_eq!(postings_of(&snapshot, "smart"), vec![Posting { product_id: 10, freq: 1 }]);
    let mut shirts = postings_of(&snapshot, "camis");
    shirts.sort_by_key(|p| p.product_id);
    assert_eq!(shirts, vec![Posting { product_id: 10, freq: 1 }, Posting { product_id: 11, freq: 1 }]);
    let stored = idx.get_product(&10).unwrap();
    assert_eq!(stored.name, "Camisa Branca");
    assert_eq!(stored.brand, None);
    assert_eq!(stored.category, Some("Smart".to_string()));
    assert_eq!(stored.description, None);
}

#[test]
fn remove_leaves_no_posting_and_no_empty_term() {
    let mut idx = InvertedIndex::new();
    idx.add_product(Product::new(10, "Camisa Preta", None, None, None));
    idx.add_product(Product::new(11, "Camisa Branca", None, None, None));
    idx.remove_product(10);
    let snapshot = idx.get_index_snapshot();
    assert_eq!(postings_of(&snapshot, "camis"), vec![Posting { product_id: 11, freq: 1 }]);
    assert_eq!(postings_of(&snapshot, "branc"), vec![Posting { product_id: 11, freq: 1 }]);
    assert!(snapshot.get(&term("pret")).is_none());
    assert_eq!(snapshot.len(), 2);
    assert!(idx.get_product(&10).is_none());
    assert_eq!(idx.get_product(&11).unwrap().name, "Camisa Branca");
}

#[test]
fn remove_of_an_unknown_record_changes_nothing() {
    let mut idx = InvertedIndex::new();
    idx.add_product(Product::new(10, "Camisa Preta", None, None, None));
    idx.remove_product(99);
    let snapshot = idx.get_index_snapshot();
    assert_eq!(snapshot.len(), 2);
    assert_eq!(postings_of(&snapshot, "camis"), vec![Posting { product_id: 10, freq: 1 }]);
    assert_eq!(idx.get_product(&10).unwrap().id, 10);
}

#[test]
fn remove_of_the_last_record_empties_the_index() {
    let mut idx = InvertedIndex::new();
    idx.add_product(Product::new(10, "Camisa Preta", None, None, None));
    idx.remove_product(10);
    assert_eq!(idx.get_index_snapshot().len(), 0);
}

#[test]
fn record_without_terms_is_stored_but_has_no_postings() {
    let mut idx = InvertedIndex::new();
    idx.add_product(Product::new(5, "de para!", None, Some(""), None));
    assert_eq!(idx.get_index_snapshot().len(), 0);
    assert_eq!(idx.get_product(&5).unwrap().name, "de para!");
}

#[test]
fn snapshot_is_isolated_from_later_changes() {
    let mut idx = InvertedIndex::new();
    idx.add_product(Product::new(10, "Camisa Preta", None, None, None));
    let snapshot = idx.get_index_snapshot();
    idx.add_product(Product::new(11, "Camisa Branca", None, None, None));
    idx.remove_product(10);
    assert_eq!(snapshot.len(), 2);
    assert_eq!(postings_of(&snapshot, "camis"), vec![Posting { product_id: 10, freq: 1 }]);
    assert_eq!(postings_of(&snapshot, "pret"), vec![Posting { product_id: 10, freq: 1 }]);
    assert!(snapshot.get(&term("branc")).is_none());
}

#[test]
fn retain_others_keeps_the_order_of_the_rest() {
    let list = vec![
        Posting { product_id: 1, freq: 2 },
        Posting { product_id: 2, freq: 1 },
        Posting { product_id: 3, freq: 5 },
    ];
    assert_eq!(
        retain_others(&list, 2),
        vec![Posting { product_id: 1, freq: 2 }, Posting { product_id: 3, freq: 5 }]
    );
    assert_eq!(retain_others(&list, 9), list);
    assert!(retain_others(&Vec::new(), 1).is_empty());
}

#[test]
fn upsert_posting_overwrites_or_appends() {
    let mut list = vec![Posting { product_id: 1, freq: 2 }, Posting { product_id: 2, freq: 1 }];
    upsert_posting(&mut list, Posting { product_id: 1, freq: 7 });
    assert_eq!(list, vec![Posting { product_id: 1, freq: 7 }, Posting { product_id: 2, freq: 1 }]);
    upsert_posting(&mut list, Posting { product_id: 3, freq: 4 });
    assert_eq!(
        list,
        vec![
            Posting { product_id: 1, freq: 7 },
            Posting { product_id: 2, freq: 1 },
            Posting { product_id: 3, freq: 4 },
        ]
    );
}

#[test]
fn table_upsert_get_and_remove() {
    let mut table = PostingsMap::new();
    assert_eq!(table.len(), 0);
    table.upsert(term("camis"), Posting { product_id: 1, freq: 1 });
    table.upsert(term("camis"), Posting { product_id: 2, freq: 3 });
    table.upsert(term("pret"), Posting { product_id: 1, freq: 1 });
    table.upsert(term("camis"), Posting { product_id: 1, freq: 4 });
    assert_eq!(table.len(), 2);
    assert_eq!(
        postings_of(&table, "camis"),
        vec![Posting { product_id: 1, freq: 4 }, Posting { product_id: 2, freq: 3 }]
    );
    let copy = table.snapshot();
    table.remove_record(1);
    assert_eq!(table.len(), 1);
    assert_eq!(postings_of(&table, "camis"), vec![Posting { product_id: 2, freq: 3 }]);
    assert!(table.get(&term("pret")).is_none());
    assert_eq!(copy.len(), 2);
    assert_eq!(postings_of(&copy, "pret"), vec![Posting { product_id: 1, freq: 1 }]);
}
