use dictionary_engine::Database;
use dictionary_engine::DictionaryEntry;
use dictionary_engine::SearchEngine;

fn entry(id: i64, lemma: &str) -> DictionaryEntry {
    DictionaryEntry {
        id,
        lemma: lemma.to_string(),
        pos: "noun".to_string(),
        meanings: format!("meaning of {}", lemma),
        definitions: format!("definition of {}", lemma),
        examples: format!("example with {}", lemma),
        frequency_rank: None,
    }
}

fn ranked_entry(id: i64, lemma: &str, rank: i64) -> DictionaryEntry {
    DictionaryEntry {
        frequency_rank: Some(rank),
        ..entry(id, lemma)
    }
}

#[test]
fn scenario_inflected_and_unknown_terms() {
    let db = Database::new(vec![entry(5, "run")]);
    let source = "running\trun\tVBG\nrun\trun\tVB";
    let mut engine = SearchEngine::new(db, source);

    let result = engine.search("Running").unwrap();
    assert_eq!(result.entries.len(), 1);
    assert_eq!(result.entries[0].id, 5);
    assert!(result.found_inflections);
    assert_eq!(result.query_used, "run");

    let missing = engine.search("xyzzy").unwrap();
    assert_eq!(missing.entries.len(), 0);
    assert_eq!(missing.total_results, 0);
    assert!(!missing.found_inflections);
    assert_eq!(missing.query_used, "xyzzy");
}

#[test]
fn resolution_is_union_of_candidate_lemmas() {
    let db = Database::new(vec![
        entry(1, "good"),
        entry(2, "well"),
        entry(3, "bad"),
    ]);
    let source = "better\tgood\tJJR\nbetter\twell\tRBR";
    let mut engine = SearchEngine::new(db, source);

    let result = engine.search("better").unwrap();
    let ids: Vec<i64> = result.entries.iter().map(|e| e.id).collect();
    assert_eq!(ids, vec![1, 2]);
    assert!(result.found_inflections);
    assert_eq!(result.query_used, "good, well");
}

#[test]
fn duplicate_candidates_are_deduplicated_by_identifier() {
    let db = Database::new(vec![entry(5, "run")]);
    let source = "running\trun\tVBG\nrunning\trun\tNN";
    let mut engine = SearchEngine::new(db, source);

    let result = engine.search("running").unwrap();
    assert_eq!(result.entries.len(), 1);
    assert_eq!(result.entries[0].id, 5);
    // both candidates yielded entries, so both appear in the provenance
    assert_eq!(result.query_used, "run, run");
}

#[test]
fn merged_entries_are_ordered_by_identifier() {
    let db = Database::new(vec![
        ranked_entry(3, "bank", 5),
        ranked_entry(2, "bank", 10),
        entry(1, "bank"),
    ]);
    let mut engine = SearchEngine::new(db, "");
    let result = engine.search("bank").unwrap();
    let ids: Vec<i64> = result.entries.iter().map(|e| e.id).collect();
    // the merge re-sorts by identifier, discarding the store's rank order
    assert_eq!(ids, vec![1, 2, 3]);
}

#[test]
fn expansion_with_no_hits_does_not_fall_back() {
    let db = Database::new(vec![entry(7, "walk")]);
    // "ran" maps to "run", which has no store entry; "walk" itself is never tried
    let source = "ran\trun\tVBD";
    let mut engine = SearchEngine::new(db, source);

    let result = engine.search("ran").unwrap();
    assert_eq!(result.entries.len(), 0);
    assert!(result.found_inflections);
    let stats = engine.get_stats();
    assert_eq!(stats.inflection_lookups, 1);
    assert_eq!(stats.direct_lookups, 0);
}

#[test]
fn unknown_term_counts_one_direct_lookup() {
    let db = Database::new(vec![entry(7, "walk")]);
    let mut engine = SearchEngine::new(db, "ran\trun\tVBD");

    let result = engine.search("jump").unwrap();
    assert_eq!(result.entries.len(), 0);
    assert!(!result.found_inflections);
    let stats = engine.get_stats();
    assert_eq!(stats.total_searches, 1);
    assert_eq!(stats.inflection_lookups, 0);
    assert_eq!(stats.direct_lookups, 1);
}

#[test]
fn direct_hit_without_mapping_is_not_a_fallback() {
    let db = Database::new(vec![entry(7, "walk")]);
    let mut engine = SearchEngine::new(db, "ran\trun\tVBD");

    let result = engine.search("walk").unwrap();
    assert_eq!(result.entries.len(), 1);
    assert!(!result.found_inflections);
    assert_eq!(result.query_used, "walk");
    let stats = engine.get_stats();
    // the term itself was the only candidate and it produced entries,
    // so the merged set was never empty and no fallback was counted
    assert_eq!(stats.direct_lookups, 0);
}

#[test]
fn resolve_is_idempotent_for_an_unmodified_store() {
    let db = Database::new(vec![
        entry(1, "good"),
        entry(2, "well"),
    ]);
    let mut engine = SearchEngine::new(db, "better\tgood\tJJR\nbetter\twell\tRBR");

    let first = engine.search("better").unwrap();
    let second = engine.search("better").unwrap();
    assert_eq!(first.entries, second.entries);
    assert_eq!(first.query_used, second.query_used);
    assert_eq!(first.found_inflections, second.found_inflections);
}

#[test]
fn search_normalizes_case_and_whitespace() {
    let db = Database::new(vec![entry(5, "run")]);
    let mut engine = SearchEngine::new(db, "running\trun\tVBG");

    let result = engine.search("  RUNNING \t").unwrap();
    assert_eq!(result.entries.len(), 1);
    assert!(result.found_inflections);
}

#[test]
fn counters_count_each_qualifying_event_once() {
    let db = Database::new(vec![entry(1, "good"), entry(2, "well")]);
    let mut engine = SearchEngine::new(db, "better\tgood\tJJR\nbetter\twell\tRBR");

    engine.search("better").unwrap();
    engine.search("better").unwrap();
    engine.search("nowhere").unwrap();
    let stats = engine.get_stats();
    assert_eq!(stats.total_searches, 3);
    // one inflection-lookup event per resolution, not one per candidate
    assert_eq!(stats.inflection_lookups, 2);
    assert_eq!(stats.direct_lookups, 1);
    assert_eq!(stats.cache_hits, 0);
}

#[test]
fn get_inflections_returns_pairs_and_never_fails() {
    let db = Database::new(vec![]);
    let mut engine = SearchEngine::new(db, "running\trun\tVBG\nRunning\tRUN\tNN");
    // keys and lemmas are lowercased on load, so both lines share one key
    let pairs = engine.get_inflections(" RUNNING ");
    assert_eq!(
        pairs,
        vec![
            ("run".to_string(), "VBG".to_string()),
            ("run".to_string(), "NN".to_string())
        ]
    );
    assert_eq!(engine.get_inflections("unknown"), Vec::new());
    engine.cleanup_and_shutdown().unwrap();
}

#[test]
fn engine_stats_compose_store_totals() {
    let db = Database::new(vec![
        entry(1, "run"),
        entry(2, "run"),
        entry(3, "walk"),
    ]);
    let engine = SearchEngine::new(db, "");
    let stats = engine.get_stats();
    assert_eq!(stats.total_dictionary_entries, 3);
    assert_eq!(stats.unique_lemmas, 2);
}

#[test]
fn shutdown_clears_the_index_but_keeps_store_and_counters() {
    let db = Database::new(vec![entry(5, "run")]);
    let mut engine = SearchEngine::new(db, "running\trun\tVBG");

    engine.search("running").unwrap();
    engine.cleanup_and_shutdown().unwrap();
    assert_eq!(engine.get_inflections("running"), Vec::new());

    // the store still answers; the term no longer expands
    let result = engine.search("running").unwrap();
    assert!(!result.found_inflections);
    assert_eq!(result.entries.len(), 0);

    let stats = engine.get_stats();
    assert_eq!(stats.total_searches, 2);
    assert_eq!(stats.inflection_lookups, 1);
    assert_eq!(stats.total_dictionary_entries, 1);
}

#[test]
fn suggestions_respect_limit_and_prefix() {
    let db = Database::new(vec![
        entry(1, "run"),
        entry(2, "runner"),
        entry(3, "running"),
        entry(4, "walk"),
    ]);
    let engine = SearchEngine::new(db, "");

    let all = engine.get_suggestions("run", 10).unwrap();
    assert_eq!(all, vec!["run", "runner", "running"]);
    for s in &all {
        assert!(s.to_lowercase().starts_with("run"));
    }

    let two = engine.get_suggestions("run", 2).unwrap();
    assert_eq!(two.len(), 2);
    assert_eq!(two, vec!["run", "runner"]);

    let none = engine.get_suggestions("run", 0).unwrap();
    assert!(none.is_empty());

    // the prefix is trimmed and lowercased before matching
    let upper = engine.get_suggestions("  RUN ", 10).unwrap();
    assert_eq!(upper, all);
}
