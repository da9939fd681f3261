use rir::analyzer::{Analyzer, Query};
use rir::tokenizer::{Language, Segmentator};

#[test]
fn test_analyzer() {
    let mut analyzer = Analyzer::new();
    let mut term_ids = analyzer.analyze("Do you quarrel, sir?").unwrap();
    assert_eq!(analyzer.get_language(), Language::English);
    assert_eq!(term_ids, vec![1, 2, 3, 4]);
    term_ids = analyzer.analyze("Quarrel sir! no, sir!").unwrap();
    assert_eq!(term_ids, vec![3, 4, 5, 4]);

    let (term_known, unknown_terms) = analyzer.parse("quarrel sir");
    assert_eq!(term_known, vec![3, 4]);
    assert_eq!(unknown_terms, Vec::<String>::from(vec![]));

    let (term_known, unknown_terms) = analyzer.parse("quarrel sir Cool");
    assert_eq!(term_known, vec![3, 4]);
    assert_eq!(unknown_terms, vec!["cool"]);
}

#[test]
fn test_analyze_english() {
    let mut analyzer = Analyzer::new();
    let term_ids = analyzer.analyze("Do you quarrel, sir?").unwrap();
    assert_eq!(analyzer.get_language(), Language::English);
    assert_eq!(term_ids, vec![1, 2, 3, 4]);
}

#[test]
fn test_analyze_chinese() {
    let mut analyzer = Analyzer::new();
    let term_ids = analyzer.analyze("滚滚长江东逝水，浪花淘尽英雄。").unwrap();
    assert_eq!(analyzer.get_language(), Language::Chinese);
    assert_eq!(term_ids, vec![1, 2, 3, 4, 5, 6, 7, 8]);
}

#[test]
fn test_unicode_functions() {
    assert!(' '.is_whitespace());
    assert!('a'.is_alphabetic());
    assert!('中'.is_alphabetic());
    assert!('a'.is_ascii_alphabetic());
    assert!(!'中'.is_ascii_alphabetic());
    assert!(!'，'.is_alphabetic());
}

#[test]
fn test_parse_tokens() {
    let text = "Quarrel sir! no, sir!";
    let latinseg = Segmentator::new();
    let normalized = latinseg.normalize(text);
    let tokens = latinseg.parse_tokens(&normalized);
    assert_eq!(tokens, vec!["quarrel", "sir", "no", "sir"]);
}

#[test]
fn test_parse_chinese() {
    let text = "滚滚长江东逝水，浪花淘尽英雄。";
    let mut seg = Segmentator::new();
    seg.set_language(Language::Chinese);
    let normalized = seg.normalize(text);
    let tokens = seg.parse_tokens(&normalized);
    assert_eq!(tokens, vec!["滚滚", "长江", "东", "逝水", "浪花", "淘", "尽", "英雄"]);
}

#[test]
fn test_query() {
    let mut analyzer = Analyzer::new();
    let terms_add_to_dict = analyzer.analyze("Do you QUARREL, sir?").unwrap();
    assert_eq!(terms_add_to_dict, vec![1, 2, 3, 4]);
    let phrase_str = "Sir quarrel";
    let terms = Query::parse(phrase_str, true, &analyzer);
    assert_eq!(terms, vec![4, 3]);
}

#[test]
fn query_with_unknown_terms() {
    let mut analyzer = Analyzer::new();
    analyzer.analyze("Do you quarrel, sir?").unwrap();
    assert_eq!(Query::parse("sir non-exist", true, &analyzer), vec![4]);
    assert_eq!(Query::parse("sir non-exist", false, &analyzer), Vec::<u32>::new());
    assert_eq!(Query::parse("sir quarrel", false, &analyzer), vec![4, 3]);
}

#[test]
fn language_is_detected_once() {
    let mut analyzer = Analyzer::new();
    analyzer.analyze("Do you quarrel, sir?").unwrap();
    analyzer.analyze("滚滚长江东逝水，浪花淘尽英雄。").unwrap();
    assert_eq!(analyzer.get_language(), Language::English);
    assert!(analyzer.is_language_detected());
}

#[test]
fn analyzer_stats_and_terms() {
    let mut analyzer = Analyzer::new();
    analyzer.analyze("Quarrel sir! no, sir!").unwrap();
    let stats = analyzer.stats();
    assert_eq!(stats.dict.term_count, 3);
    assert_eq!(stats.lang, "English");
    assert_eq!(analyzer.get_term_by_id(2), "sir");
    assert_eq!(analyzer.get_term_by_id(9), "");
    let restored = Analyzer::from_parts(analyzer.get_dictionary().terms(), Language::English, true).unwrap();
    assert_eq!(restored.parse("no sir").0, vec![3, 2]);
}
