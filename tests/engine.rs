use rir::common::RankingAlgorithm;
use rir::doc::Document;
use rir::engine::Engine;
use rir::ranking::{query_term_frequencies, sort_by_count_desc};
use std::collections::HashSet;

fn shakespeare() -> Engine {
    let docs = [
        ("do you quarrel sir", "d1"),
        ("quarrel sir no sir", "d2"),
        ("if you do sir i am for you i serve as good a man as you", "d3"),
        ("no better", "d4"),
        ("well sir", "d5"),
    ];
    let mut engine = Engine::new();
    for (i, (content, path)) in docs.iter().enumerate() {
        let d = engine.add_document(&Document::new(content.to_string(), path.to_string()));
        assert_eq!(d, Some(i as u32 + 1));
    }
    engine
}

fn exact(engine: &Engine, phrase: &str) -> Vec<String> {
    let ids = engine.query_terms(phrase, RankingAlgorithm::ExactMatch);
    engine.resolve(&engine.exact_match(&ids))
}

#[test]
fn exact_match_scenarios() {
    let engine = shakespeare();
    let hits: HashSet<String> = exact(&engine, "quarrel sir").into_iter().collect();
    assert_eq!(hits, HashSet::from(["d1".to_string(), "d2".to_string()]));
    assert_eq!(exact(&engine, "sir").len(), 4);
    assert_eq!(exact(&engine, "Sir").len(), 4);
    assert!(exact(&engine, "non-exist").is_empty());
    assert!(exact(&engine, "sir non-exist").is_empty());
}

#[test]
fn ranked_queries_drop_unknown_terms() {
    let engine = shakespeare();
    let ids = engine.query_terms("quarrel sir non-exist", RankingAlgorithm::OkapiBM25);
    assert_eq!(ids, vec![3, 4]);
    let candidates = engine.get_index().docs_contain_any(&ids);
    assert_eq!(candidates, HashSet::from([1, 2, 3, 5]));
}

#[test]
fn stored_engine_answers_alike() {
    let engine = shakespeare();
    let restored = Engine::from_parts(&engine.to_parts()).unwrap();
    assert_eq!(restored.doc_count(), 5);
    for phrase in ["quarrel sir", "sir", "you", "no better", "sir non-exist"] {
        assert_eq!(exact(&restored, phrase), exact(&engine, phrase));
    }
    let ids = restored.query_terms("quarrel sir", RankingAlgorithm::Default);
    assert_eq!(restored.get_index().docs_contain_any(&ids), engine.get_index().docs_contain_any(&ids));
}

#[test]
fn corpus_statistics() {
    let engine = shakespeare();
    let stats = engine.get_index().stats(engine.get_analyzer().get_dictionary());
    assert_eq!(stats.document_count, 5);
    assert_eq!(stats.total_document_length, 28);
    assert_eq!(stats.total_document_length as f32 / stats.document_count as f32, 5.6);
    assert_eq!(stats.term_freq[0].1, "sir");
    assert_eq!(stats.term_freq[0].2, 5);
}

#[test]
fn query_term_counts() {
    assert_eq!(query_term_frequencies(&vec![4, 3, 4, 4]), vec![(4, 3), (3, 1)]);
    assert_eq!(query_term_frequencies(&vec![]), vec![]);
}

#[test]
fn sort_keeps_items_and_orders_by_count() {
    assert_eq!(sort_by_count_desc(vec![(1, 2), (2, 5), (3, 2), (4, 9)]), vec![(4, 9), (2, 5), (1, 2), (3, 2)]);
    assert_eq!(sort_by_count_desc(vec![]), vec![]);
}

#[test]
fn empty_index_answers_nothing() {
    let engine = Engine::new();
    assert_eq!(engine.doc_count(), 0);
    let ids = engine.query_terms("anything at all", RankingAlgorithm::Default);
    assert!(ids.is_empty());
    assert!(engine.exact_match(&ids).is_empty());
    assert!(engine.get_index().docs_contain_any(&ids).is_empty());
    assert_eq!(engine.get_index().docs_contain_all(&ids), None);
    assert!(engine.resolve(&vec![1, 2]).is_empty());
}

#[test]
fn every_ordinary_document_is_added() {
    let mut engine = Engine::new();
    for i in 0..20u32 {
        let d = engine.add_document(&Document::new(format!("word{} common", i), format!("p{}", i)));
        assert_eq!(d, Some(i + 1));
    }
    assert_eq!(engine.doc_count(), 20);
    assert_eq!(engine.resolve(&vec![20, 1]), vec!["p19".to_string(), "p0".to_string()]);
}

#[test]
fn stored_engine_keeps_paths() {
    let engine = shakespeare();
    let restored = Engine::from_parts(&engine.to_parts()).unwrap();
    assert_eq!(restored.resolve(&vec![1, 2, 3, 4, 5]), engine.resolve(&vec![1, 2, 3, 4, 5]));
    let mut parts = engine.to_parts();
    parts.doc_meta.push((9, "nowhere".to_string()));
    assert!(Engine::from_parts(&parts).is_none());
}
