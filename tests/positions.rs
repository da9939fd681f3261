use rir::positions::{binary_search, next_position, prev_position};

#[test]
fn binary_search_test_binary_search() {
    let positions = vec![5, 20, 35, 50];
    let target = binary_search(&positions, 0, positions.len() - 1, 19, |v1, v2| v1 <= v2, |_, v2| v2);
    assert_eq!(target, 1);

    let target = binary_search(&positions, 0, positions.len() - 1, 19, |v1, v2| v1 < v2, |v1, _| v1);
    assert_eq!(target, 0);
}

#[test]
fn ps_test_binary_search() {
    let positions = vec![5, 20, 35, 50];
    let target = binary_search(&positions, 0, positions.len() - 1, 19, |v1, v2| v1 <= v2, |_, v2| v2);
    assert_eq!(target, 1);

    let target = binary_search(&positions, 0, positions.len() - 1, 19, |v1, v2| v1 < v2, |v1, _| v1);
    assert_eq!(target, 0);
}

#[test]
fn next_and_prev_position_edges() {
    let p = vec![2205, 2268, 745406, 745466, 745501, 1271487];
    assert_eq!(next_position(&p, 0), Some(2205));
    assert_eq!(next_position(&p, 5000), Some(745406));
    assert_eq!(next_position(&p, 745407), Some(745466));
    assert_eq!(next_position(&p, 745466), Some(745501));
    assert_eq!(next_position(&p, 1271487), None);
    assert_eq!(prev_position(&p, 1000), None);
    assert_eq!(prev_position(&p, 2205), None);
    assert_eq!(prev_position(&p, 5000), Some(2268));
    assert_eq!(prev_position(&p, 745466), Some(745406));
    assert_eq!(prev_position(&p, 2_000_000), Some(1271487));
    let empty: Vec<u32> = vec![];
    assert_eq!(next_position(&empty, 0), None);
    assert_eq!(prev_position(&empty, 10), None);
}

#[test]
fn binary_search_adjacent_bracket() {
    let positions = vec![5, 20, 35, 50];
    let r = binary_search(&positions, 1, 2, 19, |v1, v2| v1 <= v2, |l, h| l * 10 + h);
    assert_eq!(r, 12);
}
