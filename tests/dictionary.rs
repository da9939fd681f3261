use rir::dictionary::Dictionary;

#[test]
fn test_dictionary() {
    let mut dict = Dictionary::new();
    let mut id = dict.add("one");
    assert_eq!(id, 1);
    id = dict.add("two");
    assert_eq!(id, 2);
    id = dict.add("three");
    assert_eq!(id, 3);
    assert_eq!(dict.get("one"), Some(1));
    assert_eq!(dict.get("two"), Some(2));
    assert_eq!(dict.get("three"), Some(3));
    assert_eq!(dict.get("do-not-exist"), None);
    assert_eq!(dict.get_ids(&vec!["one", "three", "two"]), (vec![1, 3, 2], vec![]));
    assert_eq!(dict.get_ids(&vec!["one", "three", "two", "four"]), (vec![1, 3, 2], vec!["four".to_string()]));
    assert_eq!(dict.get_term_by_id(1), "one");
    assert_eq!(dict.get_term_by_id(2), "two");
    assert_eq!(dict.get_term_by_id(3), "three");
    assert_eq!(dict.get_term_by_id(4), "");
    assert_eq!(dict.get_term_count(), 3);
    assert_eq!(dict.generate_ids(&vec!["alpha", "beta"]), vec![4, 5]);
    assert_eq!(dict.get_ids(&vec!["one", "three", "two"]), (vec![1, 3, 2], vec![]));
    assert_eq!(dict.get_ids(&vec!["one", "three", "two", "four"]), (vec![1, 3, 2], vec!["four".to_string()]));
    assert_eq!(dict.get_term_by_id(1), "one");
    assert_eq!(dict.get_term_by_id(2), "two");
    assert_eq!(dict.get_term_by_id(3), "three");
    assert_eq!(dict.get_term_by_id(4), "alpha");
    assert_eq!(dict.get("one"), Some(1));
    assert_eq!(dict.get("two"), Some(2));
    assert_eq!(dict.get("three"), Some(3));
    assert_eq!(dict.get("alpha"), Some(4));
    assert_eq!(dict.get("beta"), Some(5));
    assert_eq!(dict.get("do-not-exist"), None);
    assert_eq!(dict.get_term_count(), 5);
}

#[test]
fn dictionary_add_is_idempotent() {
    let mut dict = Dictionary::new();
    assert_eq!(dict.add("x"), 1);
    assert_eq!(dict.add("x"), 1);
    assert_eq!(dict.get_term_count(), 1);
    assert_eq!(dict.summary().term_count, 1);
}

#[test]
fn dictionary_generate_ids_repeats() {
    let mut dict = Dictionary::new();
    assert_eq!(dict.generate_ids(&vec!["b", "a", "b", "c", "a"]), vec![1, 2, 1, 3, 2]);
    assert_eq!(dict.get_term_by_id(3), "c");
    assert_eq!(dict.get_term_by_id(0), "");
}

#[test]
fn dictionary_unicode_terms() {
    let mut dict = Dictionary::new();
    assert_eq!(dict.generate_ids(&vec!["世", "界", "世"]), vec![1, 2, 1]);
    assert_eq!(dict.get("界"), Some(2));
    assert_eq!(dict.get("好"), None);
}

#[test]
fn dictionary_restore_from_terms() {
    let mut dict = Dictionary::new();
    dict.generate_ids(&vec!["one", "two", "three"]);
    let restored = Dictionary::from_terms(dict.terms()).unwrap();
    assert_eq!(restored.get("two"), Some(2));
    assert_eq!(restored.get_term_by_id(3), "three");
    assert_eq!(restored.get_term_count(), 3);
    let twice = vec!["a".to_string(), "b".to_string(), "a".to_string()];
    assert!(Dictionary::from_terms(&twice).is_none());
}
