use rir::dictionary::Dictionary;
use rir::index::PositionList;
use std::collections::HashSet;

fn pair_count(idx: &PositionList, max_term: u32) -> u32 {
    (1..=max_term).map(|t| idx.get_document_frequency(t).unwrap_or(0)).sum()
}

fn check_first_document(idx: &PositionList, dict: &Dictionary) {
    assert_eq!(dict.get_term_count(), 6);
    assert_eq!(idx.stats(dict).term_freq.len(), dict.get_term_count());
    assert_eq!(pair_count(idx, 6), 6);
    assert_eq!(idx.get_total_document_length(), 9);
    assert_eq!(idx.get_total_document_length() as f32 / idx.get_document_count() as f32, 9.0);
    assert_eq!(idx.get_document_count(), 1);
}

fn check_second_document(idx: &PositionList, dict: &Dictionary) {
    assert_eq!(dict.get_term_count(), 8);
    assert_eq!(idx.stats(dict).term_freq.len(), dict.get_term_count());
    assert_eq!(pair_count(idx, 8), 10);
    assert_eq!(idx.get_total_document_length(), 13);
    assert_eq!(idx.get_total_document_length() as f32 / idx.get_document_count() as f32, 6.5);
    assert_eq!(idx.get_document_count(), 2);
}

fn check_doc_terms(idx: &PositionList) {
    let d1 = idx.get_doc_terms(1);
    for t in 1..=6u32 {
        assert!(d1.contains(&t));
    }
    assert!(!d1.contains(&7));
    assert!(!d1.contains(&8));
    let d2 = idx.get_doc_terms(2);
    for t in 5..=8u32 {
        assert!(d2.contains(&t));
    }
}

fn check_occurrences(idx: &PositionList) {
    assert_eq!(idx.get_term_occurences_num(2), 1);
    assert_eq!(idx.get_term_occurences_num(1), 2);
    assert_eq!(idx.get_term_occurences_num(6), 3);
    assert_eq!(idx.get_term_occurences_num(7), 1);
}

fn two_documents() -> (PositionList, Dictionary) {
    let mut idx = PositionList::new();
    let mut dict = Dictionary::new();
    let term_ids = dict.generate_ids(&vec!["hello", "world", "hello", "世", "界", "你", "好", "你", "好"]);
    assert_eq!(idx.add_document(&term_ids), 1);
    let term_ids = dict.generate_ids(&vec!["你", "好", "明", "天"]);
    assert_eq!(idx.add_document(&term_ids), 2);
    (idx, dict)
}

#[test]
fn pl_test_index_from_string() {
    let mut idx = PositionList::new();
    let mut dict = Dictionary::new();
    let mut term_ids = dict.generate_ids(&vec!["hello", "world", "hello", "世", "界", "你", "好", "你", "好"]);
    let mut doc_id = idx.add_document(&term_ids);
    assert_eq!(doc_id, 1);
    check_first_document(&idx, &dict);
    let d1 = idx.get_doc_terms(1);
    for t in 1..=6u32 {
        assert!(d1.contains(&t));
    }
    term_ids = dict.generate_ids(&vec!["你", "好", "明", "天"]);
    doc_id = idx.add_document(&term_ids);
    assert_eq!(doc_id, 2);
    check_second_document(&idx, &dict);
    check_doc_terms(&idx);
    check_occurrences(&idx);
}

#[test]
fn index_test_index_from_string() {
    let mut idx = PositionList::new();
    let mut dict = Dictionary::new();
    let mut term_ids = dict.generate_ids(&vec!["hello", "world", "hello", "世", "界", "你", "好", "你", "好"]);
    let mut doc_id = idx.add_document(&term_ids);
    assert_eq!(doc_id, 1);
    check_first_document(&idx, &dict);
    term_ids = dict.generate_ids(&vec!["你", "好", "明", "天"]);
    doc_id = idx.add_document(&term_ids);
    assert_eq!(doc_id, 2);
    check_second_document(&idx, &dict);
    check_occurrences(&idx);
}

fn check_docs_contain_term(idx: &PositionList) {
    let mut term_ids = vec![1, 6];
    let doc_set = idx.docs_contain_all(&term_ids);
    assert_eq!(term_ids, vec![1, 6]);
    assert_eq!(Some(HashSet::from([1])), doc_set);
    let doc_set = idx.docs(6);
    assert_eq!(Some(HashSet::from([1, 2])), doc_set);
    term_ids = vec![7];
    assert_eq!(idx.docs_contain_any(&term_ids), HashSet::from([2]));
    term_ids = vec![7, 5];
    assert_eq!(idx.docs_contain_any(&term_ids), HashSet::from([1, 2]));
    term_ids = vec![100];
    assert_eq!(idx.docs_contain_any(&term_ids).len(), 0);
    term_ids = vec![7, 100, 7];
    assert_eq!(idx.docs_contain_any(&term_ids), HashSet::from([2]));
}

#[test]
fn pl_test_docs_contain_term() {
    let (idx, _dict) = two_documents();
    check_docs_contain_term(&idx);
}

#[test]
fn index_test_docs_contain_term() {
    let (idx, _dict) = two_documents();
    check_docs_contain_term(&idx);
}

#[test]
fn test_reload_index() {
    let (idx, dict) = two_documents();
    let parts = idx.to_parts();
    let idx = PositionList::from_parts(&parts).unwrap();
    assert_eq!(dict.get_term_count(), 8);
    check_second_document(&idx, &dict);
    check_doc_terms(&idx);
    check_occurrences(&idx);
}

fn check_phrase(idx: &PositionList) {
    let mut res = 0;
    if let Some(pos) = idx.first(1, 1) {
        res = pos;
        assert_eq!(pos, 1);
    }
    if let Some(pos) = idx.next(1, 1, res) {
        res = pos;
        assert_eq!(pos, 3);
    }
    if let Some(pos) = idx.last(1, 1) {
        res = pos;
        assert_eq!(pos, 3);
    }
    if let Some(pos) = idx.prev(1, 1, res) {
        assert_eq!(pos, 1);
    }
    let docs = idx.docs_contain_all(&vec![5, 6]);
    assert_eq!(docs, Some(HashSet::from([1, 2])));
    let mut phrase_start_end = idx.all_phrase(1, &vec![5, 6]);
    assert_eq!(phrase_start_end, vec![(6, 7), (8, 9)]);
    phrase_start_end = idx.all_phrase(2, &vec![5, 6]);
    assert_eq!(phrase_start_end, vec![(1, 2)]);
}

#[test]
fn index_test_prhase() {
    let (idx, _dict) = two_documents();
    check_phrase(&idx);
}

#[test]
fn ps_test_prhase() {
    let (idx, _dict) = two_documents();
    check_phrase(&idx);
}

fn check_search_phrase(idx: &PositionList) {
    let mut term_ids = vec![5, 6];
    let mut docs = idx.search_phrase(&term_ids);
    assert_eq!(docs.len(), 2);
    assert_eq!(term_ids.len(), 2);
    term_ids = vec![5];
    docs = idx.search_phrase(&term_ids);
    assert_eq!(docs.len(), 2);
    assert_eq!(term_ids.len(), 1);
}

#[test]
fn index_test_search_phrase() {
    let (idx, _dict) = two_documents();
    check_search_phrase(&idx);
}

#[test]
fn ps_test_search_phrase() {
    let (idx, _dict) = two_documents();
    check_search_phrase(&idx);
}

#[test]
fn search_phrase_counts_most_first() {
    let (idx, _dict) = two_documents();
    assert_eq!(idx.search_phrase(&vec![5, 6]), vec![(1, 2), (2, 1)]);
    assert_eq!(idx.search_phrase(&vec![1]), vec![(1, 2)]);
    assert_eq!(idx.search_phrase(&vec![]), vec![]);
    assert_eq!(idx.search_phrase(&vec![5, 100]), vec![]);
}

#[test]
fn positions_follow_token_order() {
    let mut idx = PositionList::new();
    assert_eq!(idx.add_document(&vec![1, 1, 1, 1, 1, 1]), 1);
    assert_eq!(idx.get_positions(1, 1), Some(&vec![1, 2, 3, 4, 5, 6]));
    assert_eq!(idx.all_phrase(1, &vec![1, 1, 1]), vec![(1, 3), (2, 4), (3, 5), (4, 6)]);
    assert_eq!(idx.get_term_frequency(1, 1), Some(6));
    assert_eq!(idx.get_term_frequency(1, 2), None);
    assert_eq!(idx.get_positions(2, 1), None);
}

#[test]
fn empty_document_still_counts() {
    let mut idx = PositionList::new();
    assert_eq!(idx.add_document(&vec![]), 1);
    assert_eq!(idx.add_document(&vec![3, 4]), 2);
    assert_eq!(idx.get_document_count(), 2);
    assert_eq!(idx.get_document_length(1), 0);
    assert_eq!(idx.get_document_length(2), 2);
    assert_eq!(idx.get_total_document_length(), 2);
    assert!(idx.get_doc_terms(1).is_empty());
    assert!(idx.is_valid_doc_id(2));
    assert!(!idx.is_valid_doc_id(0));
    assert!(!idx.is_valid_doc_id(3));
}

#[test]
fn primitives_on_synthetic_document() {
    let mut ids = vec![2u32; 1271487];
    for p in [2205usize, 2268, 745406, 745466, 745501, 1271487] {
        ids[p - 1] = 1;
    }
    let mut idx = PositionList::new();
    idx.add_document(&ids);
    assert_eq!(idx.first(1, 1), Some(2205));
    assert_eq!(idx.last(1, 1), Some(1271487));
    assert_eq!(idx.next(1, 1, 0), Some(2205));
    assert_eq!(idx.next(1, 1, 5000), Some(745406));
    assert_eq!(idx.next(1, 1, 745407), Some(745466));
    assert_eq!(idx.next(1, 1, 2_000_000), None);
    assert_eq!(idx.prev(1, 1, 1000), None);
    assert_eq!(idx.prev(1, 1, 5000), Some(2268));
    assert_eq!(idx.prev(1, 1, 2_000_000), Some(1271487));
    assert_eq!(idx.next(1, 1, 2205 - 1), Some(2205));
    assert_eq!(idx.prev(1, 1, 1271487 + 1), Some(1271487));
}

#[test]
fn stats_lists_most_frequent_first() {
    let (idx, dict) = two_documents();
    let stats = idx.stats(&dict);
    assert_eq!(stats.document_count, 2);
    assert_eq!(stats.total_document_length, 13);
    assert_eq!(stats.term_freq.len(), 8);
    assert_eq!(stats.term_freq[0].2, 3);
    for w in stats.term_freq.windows(2) {
        assert!(w[0].2 >= w[1].2);
    }
    let hello = stats.term_freq.iter().find(|e| e.0 == 1).unwrap();
    assert_eq!(hello.1, "hello");
    assert_eq!(hello.2, 2);
}

#[test]
fn restore_rejects_bad_parts() {
    let (idx, _dict) = two_documents();
    let mut parts = idx.to_parts();
    parts.document_length.pop();
    assert!(PositionList::from_parts(&parts).is_none());
}

#[test]
fn counts_agree_with_positions() {
    let (idx, _dict) = two_documents();
    let mut total: u64 = 0;
    for d in 1..=idx.get_document_count() as u32 {
        total += idx.get_document_length(d) as u64;
        for t in 1..=8u32 {
            match idx.get_positions(t, d) {
                Some(p) => {
                    assert_eq!(idx.get_term_frequency(t, d), Some(p.len() as u32));
                    assert!(p.windows(2).all(|w| w[0] < w[1]));
                },
                None => assert_eq!(idx.get_term_frequency(t, d), None),
            }
        }
    }
    assert_eq!(total, idx.get_total_document_length());
    for t in 1..=8u32 {
        let docs = idx.docs(t).unwrap();
        assert_eq!(idx.get_document_frequency(t), Some(docs.len() as u32));
        let occurrences: u64 = docs.iter().map(|&d| idx.get_term_frequency(t, d).unwrap() as u64).sum();
        assert_eq!(idx.get_term_occurences_num(t), occurrences);
    }
    assert_eq!(idx.get_document_frequency(100), None);
    assert_eq!(idx.docs(100), None);
}

#[test]
fn contains_all_needs_every_term() {
    let (idx, _dict) = two_documents();
    assert_eq!(idx.docs_contain_all(&vec![1, 100]), Some(HashSet::new()));
    assert_eq!(idx.docs_contain_all(&vec![100]), Some(HashSet::new()));
    assert_eq!(idx.docs_contain_all(&vec![5]), Some(HashSet::from([1, 2])));
    assert_eq!(idx.docs_contain_all(&vec![]), None);
}
