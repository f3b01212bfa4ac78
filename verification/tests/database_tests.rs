use dictionary_engine::Database;
use dictionary_engine::DictionaryEntry;

fn entry(id: i64, lemma: &str, rank: Option<i64>) -> DictionaryEntry {
    DictionaryEntry {
        id,
        lemma: lemma.to_string(),
        pos: "noun".to_string(),
        meanings: String::new(),
        definitions: String::new(),
        examples: String::new(),
        frequency_rank: rank,
    }
}

#[test]
fn exact_lookup_is_case_sensitive() {
    let db = Database::new(vec![entry(1, "Run", None), entry(2, "run", None)]);
    let hits = db.search_by_lemma("run");
    assert_eq!(hits.len(), 1);
    assert_eq!(hits[0].id, 2);
    assert_eq!(db.search_by_lemma("RUN").len(), 0);
}

#[test]
fn exact_lookup_orders_by_rank_then_identifier() {
    let db = Database::new(vec![
        entry(1, "bank", None),
        entry(2, "bank", Some(10)),
        entry(3, "bank", Some(5)),
        entry(4, "bank", Some(10)),
        entry(5, "other", Some(99)),
    ]);
    let hits = db.search_by_lemma("bank");
    let ids: Vec<i64> = hits.iter().map(|e| e.id).collect();
    // higher rank first, ties by ascending identifier, unranked last
    assert_eq!(ids, vec![2, 4, 3, 1]);
}

#[test]
fn missing_lemma_yields_no_entries() {
    let db = Database::new(vec![entry(1, "run", None)]);
    assert_eq!(db.search_by_lemma("walk").len(), 0);
}

#[test]
fn prefix_lookup_is_case_insensitive_and_distinct() {
    let db = Database::new(vec![
        entry(1, "Run", Some(3)),
        entry(2, "runner", Some(9)),
        entry(3, "runner", Some(1)),
        entry(4, "running", None),
        entry(5, "walk", Some(50)),
    ]);
    let hits = db.search_by_prefix("run", 10);
    // the best-ranked occurrence of each lemma decides its place
    assert_eq!(hits, vec!["runner", "Run", "running"]);

    assert_eq!(db.search_by_prefix("run", 2), vec!["runner", "Run"]);
    assert_eq!(db.search_by_prefix("run", 0), Vec::<String>::new());
    assert_eq!(db.search_by_prefix("zzz", 10), Vec::<String>::new());
}

#[test]
fn stats_count_entries_and_distinct_lemmas() {
    let db = Database::new(vec![
        entry(1, "run", None),
        entry(2, "run", None),
        entry(3, "walk", None),
    ]);
    let stats = db.get_stats();
    assert_eq!(stats.total_entries, 3);
    assert_eq!(stats.unique_lemmas, 2);

    let empty = Database::new(vec![]);
    let empty_stats = empty.get_stats();
    assert_eq!(empty_stats.total_entries, 0);
    assert_eq!(empty_stats.unique_lemmas, 0);
}
