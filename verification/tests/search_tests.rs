use megastore_search::index::InvertedIndex;
use megastore_search::index::Posting;
use megastore_search::model::Product;
use megastore_search::scoring::BOOST;
use megastore_search::search::SearchResult;
use megastore_search::search::Searcher;
use megastore_search::search::hydrate;
use megastore_search::search::rank;
use megastore_search::sorting::comes_before;
use megastore_search::table::PostingsMap;

fn term(text: &str) -> String {
    text.to_string()
}

fn televisions() -> InvertedIndex {
    let mut idx = InvertedIndex::new();
    idx.add_product(Product::new(1, "Smart", None, None, None));
    idx.add_product(Product::new(2, "Smart smart smart", None, None, None));
    idx.add_product(Product::new(3, "Smart TV", None, None, Some("smart")));
    idx.add_product(Product::new(5, "TV", None, None, None));
    idx.add_product(Product::new(4, "TV", None, None, None));
    idx
}

fn pairs(results: &Vec<SearchResult>) -> Vec<(u32, u128)> {
    results.iter().map(|r| (r.product_id, r.score)).collect()
}

#[test]
fn boost_is_one_per_occurrence() {
    assert_eq!(BOOST, 1);
}

#[test]
fn scores_are_summed_frequencies_in_descending_order() {
    let idx = televisions();
    let searcher = Searcher::new(&idx);
    let results = searcher.search("smart", 10);
    assert_eq!(pairs(&results), vec![(2, 3), (3, 2), (1, 1)]);
    for w in results.windows(2) {
        assert!(w[0].score >= w[1].score);
    }
}

#[test]
fn every_query_token_adds_its_frequency() {
    let idx = televisions();
    let searcher = Searcher::new(&idx);
    assert_eq!(pairs(&searcher.search("smart tv", 10)), vec![(2, 3), (3, 3), (1, 1), (4, 1), (5, 1)]);
    assert_eq!(pairs(&searcher.search("smart smart", 10)), vec![(2, 6), (3, 4), (1, 2)]);
}

#[test]
fn equal_scores_are_ordered_by_identifier() {
    let idx = televisions();
    let searcher = Searcher::new(&idx);
    assert_eq!(pairs(&searcher.search("tv", 10)), vec![(3, 1), (4, 1), (5, 1)]);
}

#[test]
fn limit_cuts_the_ranking() {
    let idx = televisions();
    let searcher = Searcher::new(&idx);
    assert_eq!(pairs(&searcher.search("smart tv", 2)), vec![(2, 3), (3, 3)]);
    assert_eq!(pairs(&searcher.search("smart tv", 1)), vec![(2, 3)]);
    assert!(searcher.search("smart tv", 0).is_empty());
    assert!(searcher.search_products("smart tv", 0).is_empty());
    assert_eq!(searcher.search("smart tv", 5).len(), 5);
    assert_eq!(searcher.search("smart tv", 1000).len(), 5);
}

#[test]
fn search_products_joins_records_in_ranking_order() {
    let idx = televisions();
    let searcher = Searcher::new(&idx);
    let hits = searcher.search_products("smart", 2);
    assert_eq!(hits.len(), 2);
    assert_eq!(hits[0].0.id, 2);
    assert_eq!(hits[0].0.name, "Smart smart smart");
    assert_eq!(hits[0].1, 3);
    assert_eq!(hits[1].0.id, 3);
    assert_eq!(hits[1].0.description, Some("smart".to_string()));
    assert_eq!(hits[1].1, 2);
}

#[test]
fn hydrate_drops_results_whose_record_is_gone() {
    let mut idx = televisions();
    let stale = Searcher::new(&idx).search("smart", 10);
    assert_eq!(stale.len(), 3);
    idx.remove_product(3);
    let hits = hydrate(&idx, &stale);
    let seen: Vec<(u32, u128)> = hits.iter().map(|h| (h.0.id, h.1)).collect();
    assert_eq!(seen, vec![(2, 3), (1, 1)]);
    assert!(hydrate(&idx, &Vec::new()).is_empty());
}

#[test]
fn rank_works_on_a_snapshot() {
    let mut idx = televisions();
    let snapshot = idx.get_index_snapshot();
    idx.remove_product(2);
    let tokens = vec![term("smart")];
    assert_eq!(pairs(&rank(&snapshot, &tokens, 10)), vec![(2, 3), (3, 2), (1, 1)]);
    let now = idx.get_index_snapshot();
    assert_eq!(pairs(&rank(&now, &tokens, 10)), vec![(3, 2), (1, 1)]);
    assert!(rank(&now, &Vec::new(), 10).is_empty());
}

#[test]
fn rank_sums_over_repeated_and_unknown_tokens() {
    let mut table = PostingsMap::new();
    table.upsert(term("tv"), Posting { product_id: 9, freq: 2 });
    table.upsert(term("tv"), Posting { product_id: 4, freq: 1 });
    table.upsert(term("smart"), Posting { product_id: 4, freq: 5 });
    let tokens = vec![term("tv"), term("uhd"), term("smart"), term("tv")];
    assert_eq!(pairs(&rank(&table, &tokens, 10)), vec![(4, 7), (9, 4)]);
}

#[test]
fn large_frequencies_do_not_overflow_the_score() {
    let mut table = PostingsMap::new();
    table.upsert(term("tv"), Posting { product_id: 1, freq: u64::MAX });
    let tokens = vec![term("tv"), term("tv"), term("tv")];
    let results = rank(&table, &tokens, 10);
    assert_eq!(pairs(&results), vec![(1, 3 * (u64::MAX as u128))]);
}

#[test]
fn ranking_of_many_records_is_in_order() {
    let mut table = PostingsMap::new();
    let mut id: u32 = 0;
    while id < 500 {
        let freq = ((id as u64 * 7919) % 13) + 1;
        table.upsert(term("tv"), Posting { product_id: 499 - id, freq });
        id += 1;
    }
    let results = rank(&table, &vec![term("tv")], 1000);
    assert_eq!(results.len(), 500);
    for w in results.windows(2) {
        assert!(w[0].score > w[1].score || (w[0].score == w[1].score && w[0].product_id < w[1].product_id));
    }
    let mut seen: Vec<u32> = results.iter().map(|r| r.product_id).collect();
    seen.sort();
    let all: Vec<u32> = (0..500).collect();
    assert_eq!(seen, all);
    for r in results.iter() {
        let id = 499 - r.product_id;
        assert_eq!(r.score, (((id as u64 * 7919) % 13) + 1) as u128);
    }
    let top = rank(&table, &vec![term("tv")], 7);
    assert_eq!(pairs(&top), pairs(&results)[..7].to_vec());
}

#[test]
fn comes_before_orders_by_score_then_identifier() {
    let a = SearchResult { product_id: 7, score: 5 };
    let b = SearchResult { product_id: 3, score: 4 };
    let c = SearchResult { product_id: 9, score: 5 };
    assert!(comes_before(&a, &b));
    assert!(!comes_before(&b, &a));
    assert!(comes_before(&a, &c));
    assert!(!comes_before(&c, &a));
    assert!(!comes_before(&a, &a));
}
