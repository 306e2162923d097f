use rust_dict::dict::Dictionary;
use rust_dict::Dictionary as SteppedDictionary;

fn sample() -> Dictionary<i32, i32> {
    let mut dict = Dictionary::<i32, i32>::new();
    dict.push_back(3, 4);
    dict.push_back(1, 7);
    dict.push_back(2, 1);
    dict.push_back(5, 9);
    dict
}

fn assert_positions_agree(dict: &Dictionary<i32, i32>) {
    for (i, key) in dict.keys().iter().enumerate() {
        assert_eq!(dict.get_index(i), dict.get(*key));
    }
    assert_eq!(dict.keys().len(), dict.len());
    assert_eq!(dict.values().len(), dict.len());
}

#[test]
fn positions_agree_after_mixed_operations() {
    let mut dict = sample();
    assert_positions_agree(&dict);
    dict.remove(1);
    assert_positions_agree(&dict);
    dict.insert(8, 0, 1);
    assert_positions_agree(&dict);
    dict.sort_by_values();
    assert_positions_agree(&dict);
    dict.push_back(4, 4);
    dict.sort_by_keys();
    assert_positions_agree(&dict);
    assert_eq!(dict.keys(), &vec![2, 3, 4, 5, 8]);
}

#[test]
fn lengths_agree_when_empty() {
    let dict = Dictionary::<i32, i32>::new();
    assert_eq!(dict.len(), 0);
    assert_eq!(dict.keys().len(), 0);
    assert_eq!(dict.values().len(), 0);
    assert_eq!(dict.get_index(0), None);
}

#[test]
fn traversal_round_trip() {
    let source = sample();
    let copy = sample();
    let back: Dictionary<i32, i32> = copy.iter().into();
    assert_eq!(back, source);
    assert_eq!(back.keys(), &vec![3, 1, 2, 5]);
    assert_eq!(back.values(), &vec![4, 7, 1, 9]);
    assert_eq!(back.get(2), Some(1));
}

#[test]
fn traversal_ends_with_none() {
    let mut it = sample().into_iter();
    assert_eq!(it.next(), Some((3, 4)));
    assert_eq!(it.next(), Some((1, 7)));
    assert_eq!(it.next(), Some((2, 1)));
    assert_eq!(it.next(), Some((5, 9)));
    assert_eq!(it.next(), None);
    assert_eq!(it.next(), None);
}

#[test]
fn collected_capacity_has_a_tenth_spare() {
    let mut dict = Dictionary::<i32, i32>::new();
    for k in 0..10 {
        dict.push_back(k, k * 2);
    }
    let back = dict.into_iter().into();
    assert_eq!(back.capacity(), 11);
    assert_eq!(back.len(), 10);
    let mut partly = sample().into_iter();
    partly.next();
    let rest = partly.into();
    assert_eq!(rest.keys(), &vec![1, 2, 5]);
    assert_eq!(rest.capacity(), 3);
}

#[test]
fn sort_by_keys_twice_is_once() {
    let mut once = sample();
    once.sort_by_keys();
    let mut twice = sample();
    twice.sort_by_keys();
    twice.sort_by_keys();
    assert_eq!(once, twice);
    assert_eq!(once.capacity(), twice.capacity());
    assert_eq!(twice.keys(), &vec![1, 2, 3, 5]);
    assert_eq!(twice.values(), &vec![7, 1, 4, 9]);
}

#[test]
fn sorting_keeps_each_value_with_its_key() {
    let before = sample();
    let mut by_values = sample();
    by_values.sort_by_values();
    let mut by_keys = sample();
    by_keys.sort_by_keys();
    for key in [0, 1, 2, 3, 4, 5] {
        assert_eq!(by_values.get(key), before.get(key));
        assert_eq!(by_keys.get(key), before.get(key));
    }
}

#[test]
fn sort_by_values_keeps_ties_in_order() {
    let mut dict = Dictionary::<i32, i32>::new();
    dict.push_back(9, 2);
    dict.push_back(4, 1);
    dict.push_back(7, 2);
    dict.push_back(1, 1);
    dict.sort_by_values();
    assert_eq!(dict.values(), &vec![1, 1, 2, 2]);
    assert_eq!(dict.keys(), &vec![4, 1, 9, 7]);
}

#[test]
fn sorting_empty_dictionary() {
    let mut dict = Dictionary::<i32, i32>::new();
    dict.sort_by_keys();
    dict.sort_by_values();
    assert_eq!(dict.len(), 0);
}

#[test]
fn capacity_growth_schedule() {
    let mut dict = Dictionary::<i32, i32>::new();
    let mut seen = Vec::new();
    for k in 0..9 {
        dict.push_back(k, k);
        seen.push(dict.capacity());
    }
    assert_eq!(seen, vec![2, 2, 4, 4, 8, 8, 8, 8, 16]);
}

#[test]
fn growth_from_odd_capacities() {
    let mut three = Dictionary::<i32, i32>::with_capacity(3);
    for k in 0..3 {
        three.push_back(k, k);
    }
    assert_eq!(three.capacity(), 3);
    three.push_back(3, 3);
    assert_eq!(three.capacity(), 4);

    let mut five = Dictionary::<i32, i32>::with_capacity(5);
    for k in 0..6 {
        five.push_back(k, k);
    }
    assert_eq!(five.capacity(), 8);

    let mut one = Dictionary::<i32, i32>::with_capacity(1);
    one.push_back(0, 0);
    one.push_back(1, 1);
    assert_eq!(one.capacity(), 2);
}

#[test]
fn append_then_get_by_key() {
    let mut dict = Dictionary::<i32, String>::new();
    dict.push_back(1, "a".to_string());
    dict.push_back(2, "b".to_string());
    assert_eq!(dict.get(1), Some("a".to_string()));
    assert_eq!(dict.get(2), Some("b".to_string()));
    assert_eq!(dict.len(), 2);
}

#[test]
fn remove_then_get_by_key() {
    let mut dict = Dictionary::<i32, String>::new();
    dict.push_back(1, "a".to_string());
    dict.push_back(2, "b".to_string());
    assert_eq!(dict.remove(1), Some("a".to_string()));
    assert_eq!(dict.get(1), None);
    assert_eq!(dict.get(2), Some("b".to_string()));
    assert_eq!(dict.len(), 1);
    assert_eq!(dict.get_index(0), Some("b".to_string()));
}

#[test]
fn sort_by_values_reorders_keys() {
    let mut dict = sample();
    dict.sort_by_values();
    assert_eq!(dict.values(), &vec![1, 4, 7, 9]);
    assert_eq!(dict.keys(), &vec![2, 3, 1, 5]);
}

#[test]
fn insert_at_shifts_later_entries() {
    let mut dict = sample();
    dict.insert(6, 7, 2);
    assert_eq!(dict.keys(), &vec![3, 1, 6, 2, 5]);
    assert_eq!(dict.values(), &vec![4, 7, 7, 1, 9]);
    assert_eq!(dict.len(), 5);
    assert_eq!(dict.get(6), Some(7));
    assert_eq!(dict.get(2), Some(1));
    assert_eq!(dict.capacity(), 8);
}

#[test]
fn insert_at_end_and_front() {
    let mut dict = sample();
    dict.insert(0, 0, 0);
    dict.insert(10, 10, 5);
    assert_eq!(dict.keys(), &vec![0, 3, 1, 2, 5, 10]);
    assert_eq!(dict.get(5), Some(9));
    assert_eq!(dict.get_index(5), Some(10));
}

#[test]
fn insert_of_present_key_replaces_value_in_place() {
    let mut dict = sample();
    dict.insert(2, 100, 0);
    assert_eq!(dict.keys(), &vec![3, 1, 2, 5]);
    assert_eq!(dict.get(2), Some(100));
    assert_eq!(dict.len(), 4);
}

#[test]
fn push_back_of_present_key_replaces_value_in_place() {
    let mut dict = sample();
    let capacity = dict.capacity();
    dict.push_back(1, 70);
    assert_eq!(dict.keys(), &vec![3, 1, 2, 5]);
    assert_eq!(dict.values(), &vec![4, 70, 1, 9]);
    assert_eq!(dict.len(), 4);
    assert_eq!(dict.capacity(), capacity);
}

#[test]
fn get_or_leaves_dictionary_alone() {
    let dict = sample();
    let (len, capacity) = (dict.len(), dict.capacity());
    assert_eq!(dict.get_or(42, -1), -1);
    assert_eq!(dict.get_or(5, -1), 9);
    assert_eq!(dict.len(), len);
    assert_eq!(dict.capacity(), capacity);
}

#[test]
fn remove_missing_key_changes_nothing() {
    let mut dict = sample();
    assert_eq!(dict.remove(42), None);
    assert_eq!(dict.keys(), &vec![3, 1, 2, 5]);
    assert_eq!(dict.len(), 4);
    assert_eq!(dict.remove(5), Some(9));
    assert_eq!(dict.remove(5), None);
    assert_eq!(dict.keys(), &vec![3, 1, 2]);
}

#[test]
fn contains_key_follows_entries() {
    let mut dict = sample();
    assert!(dict.contains_key(2));
    assert!(!dict.contains_key(4));
    dict.remove(2);
    assert!(!dict.contains_key(2));
}

#[test]
fn dictionaries_differ_by_order() {
    let a = sample();
    let mut b = sample();
    b.sort_by_keys();
    assert_ne!(a, b);
}

#[test]
fn stepped_growth_by_ten() {
    let mut dict = SteppedDictionary::<i32, i32>::with_capacity(0);
    dict.update(1, 1);
    assert_eq!(dict.capacity(), 10);
    for k in 2..=10 {
        dict.update(k, k);
    }
    assert_eq!(dict.capacity(), 10);
    dict.update(11, 11);
    assert_eq!(dict.capacity(), 20);
    assert_eq!(dict.len(), 11);
    dict.update(11, 0);
    assert_eq!(dict.len(), 11);
    assert_eq!(dict.get(11), Some(0));
}

#[test]
fn stepped_get_or_and_sort_by_values() {
    let mut dict = SteppedDictionary::<i32, i32>::new();
    dict.update(3, 4);
    dict.update(1, 7);
    dict.update(2, 1);
    dict.update(5, 9);
    assert_eq!(dict.get_or(1, None), Some(7));
    assert_eq!(dict.get_or(4, Some(0)), Some(0));
    dict.sort_by_values();
    assert_eq!(dict.values(), &vec![1, 4, 7, 9]);
    assert_eq!(dict.keys(), &vec![2, 3, 1, 5]);
    assert_eq!(dict.get(1), Some(7));
    assert_eq!(dict.get_index(2), Some(7));
}
