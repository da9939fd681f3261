use rir::common::{DOC_BEGIN, DOC_END};
use rir::inverted_index::InvertedIndex;

fn setup() -> InvertedIndex {
    let mut inverted_index = InvertedIndex::new();
    inverted_index.insert("first".to_string(), 2205);
    inverted_index.insert("first".to_string(), 2268);
    inverted_index.insert("first".to_string(), 745406);
    inverted_index.insert("first".to_string(), 745466);
    inverted_index.insert("first".to_string(), 745501);
    inverted_index.insert("first".to_string(), 1271487);
    assert_eq!(inverted_index.len(&"first".to_string()), 6);
    assert_eq!(inverted_index.first(&"first".to_string()), Some(2205));
    assert_eq!(inverted_index.last(&"first".to_string()), Some(1271487));
    assert_eq!(inverted_index.next(&"first".to_string(), 0), Some(2205));
    assert_eq!(inverted_index.next(&"first".to_string(), 5000), Some(745406));
    assert_eq!(inverted_index.next(&"first".to_string(), 745407), Some(745466));
    assert_eq!(inverted_index.next(&"first".to_string(), DOC_END), None);
    assert_eq!(inverted_index.next(&"first".to_string(), DOC_BEGIN), inverted_index.first(&"first".to_string()));
    assert!(inverted_index.next(&"first".to_string(), 745466) != Some(745466));
    assert!(inverted_index.prev(&"first".to_string(), 745466) != Some(745466));
    assert_eq!(inverted_index.next(&"first".to_string(), 2000000), None);
    assert_eq!(inverted_index.prev(&"first".to_string(), 1000), None);
    assert_eq!(inverted_index.prev(&"first".to_string(), 5000), Some(2268));
    assert_eq!(inverted_index.prev(&"first".to_string(), 2000000), Some(1271487));
    assert_eq!(inverted_index.prev(&"first".to_string(), DOC_BEGIN), None);
    assert_eq!(inverted_index.prev(&"first".to_string(), DOC_END), inverted_index.last(&"first".to_string()));
    assert_eq!(inverted_index.first(&"sth invalid".to_string()), None);
    assert_eq!(inverted_index.last(&"sth invalid".to_string()), None);
    assert_eq!(inverted_index.next(&"sth invalid".to_string(), 2000000), None);
    assert_eq!(inverted_index.prev(&"sth invalid".to_string(), 1000), None);
    assert_eq!(inverted_index.len(&"sth invalid".to_string()), 0);
    inverted_index.insert("hurlyburly".to_string(), 316669);
    inverted_index.insert("hurlyburly".to_string(), 745434);
    assert_eq!(inverted_index.len(&"hurlyburly".to_string()), 2);
    assert_eq!(inverted_index.first(&"hurlyburly".to_string()), Some(316669));
    assert_eq!(inverted_index.last(&"hurlyburly".to_string()), Some(745434));
    inverted_index.insert("witch".to_string(), 1598);
    inverted_index.insert("witch".to_string(), 27555);
    inverted_index.insert("witch".to_string(), 745407);
    inverted_index.insert("witch".to_string(), 745429);
    inverted_index.insert("witch".to_string(), 745451);
    inverted_index.insert("witch".to_string(), 745467);
    inverted_index.insert("witch".to_string(), 745502);
    inverted_index.insert("witch".to_string(), 1245276);
    inverted_index.insert("spam".to_string(), 1);
    inverted_index.insert("spam".to_string(), 2);
    inverted_index.insert("spam".to_string(), 3);
    inverted_index.insert("spam".to_string(), 4);
    inverted_index.insert("spam".to_string(), 5);
    inverted_index.insert("spam".to_string(), 6);
    assert_eq!(inverted_index.first(&"witch".to_string()), Some(1598));
    assert_eq!(inverted_index.last(&"witch".to_string()), Some(1245276));
    assert_eq!(inverted_index.len(&"witch".to_string()), 8);
    inverted_index
}

#[test]
fn test_inverted_index() {
    let index = setup();
    assert_eq!(index.next_phrase(&vec!["first".to_string(), "witch".to_string()], 0), Some((745406, 745407)));
    let result = index.all_phrase(&vec!["first".to_string(), "witch".to_string()]);
    assert_eq!(result.len(), 3);
    assert!(result[0].0 == 745406 && result[0].1 == 745407);
    assert!(result[1].0 == 745466 && result[1].1 == 745467);
    assert!(result[2].0 == 745501 && result[2].1 == 745502);
    let result_spam = index.all_phrase(&vec!["spam".to_string(), "spam".to_string(), "spam".to_string()]);
    assert_eq!(result_spam.len(), 4);
    assert!(result_spam[0].0 == 1 && result_spam[0].1 == 3);
    assert!(result_spam[1].0 == 2 && result_spam[1].1 == 4);
    assert!(result_spam[2].0 == 3 && result_spam[2].1 == 5);
    assert!(result_spam[3].0 == 4 && result_spam[3].1 == 6);
}

#[test]
fn inverted_index_single_and_empty_phrases() {
    let index = setup();
    let single = index.all_phrase(&vec!["hurlyburly".to_string()]);
    assert_eq!(single, vec![(316669, 316669), (745434, 745434)]);
    assert_eq!(index.all_phrase(&vec![]), vec![]);
    assert_eq!(index.all_phrase(&vec!["first".to_string(), "nothing".to_string()]), vec![]);
    assert_eq!(index.next_phrase(&vec!["first".to_string()], 0), None);
    assert_eq!(index.next_phrase(&vec!["first".to_string(), "witch".to_string()], 745501), None);
}

#[test]
fn inverted_index_next_before_first_and_prev_after_last() {
    let index = setup();
    let t = "witch".to_string();
    let first = index.first(&t).unwrap();
    let last = index.last(&t).unwrap();
    assert_eq!(index.next(&t, first - 1), Some(first));
    assert_eq!(index.prev(&t, last + 1), Some(last));
}
