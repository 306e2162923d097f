use rust_dict::dict::Dictionary;

#[test]
fn dictiter_to_dictionary() {
    let mut dict = Dictionary::<i32, String>::new();
    dict.push_back(1, "my_string".into());
    dict.push_back(2, "my_string2".into());

    let mut dict2 = Dictionary::<i32, String>::new();
    dict2.push_back(1, "my_string".into());
    dict2.push_back(2, "my_string2".into());

    let dict2iter = dict2.into_iter();

    let dict2: Dictionary<i32, String> = dict2iter.into();
    assert_eq!(dict, dict2);
}

#[test]
fn test_iter() {
    let mut dict = Dictionary::<i32, String>::new();
    dict.push_back(1, "my_string".into());
    dict.push_back(2, "my_string2".into());

    let mut dict_iter = dict.into_iter();
    assert_eq!(dict_iter.next(), Some((1, "my_string".to_string())));
    assert_eq!(dict_iter.next(), Some((2, "my_string2".to_string())));
}

#[test]
fn dict_new_default() {
    let mut dict = Dictionary::<i32, String>::new();
    dict.push_back(1, "my_string".into());
    dict.push_back(2, "my_string2".into());
    assert_eq!(dict.len(), 2);
    assert_eq!(dict.capacity(), 2);
}

#[test]
fn dict_get() {
    let mut dict = Dictionary::<i32, String>::new();
    dict.push_back(1, "my_string".into());
    dict.push_back(2, "my_string2".into());
    assert_eq!(dict.get(1).unwrap(), String::from("my_string"));
    assert_eq!(dict.get(0), None);
}

#[test]
fn dict_get_default() {
    let mut dict = Dictionary::<i32, String>::new();
    dict.push_back(1, "my_string".into());
    dict.push_back(2, "my_string2".into());
    assert_eq!(
        dict.get_or(3, String::from("my_string3")),
        String::from("my_string3")
    );
}

#[test]
fn dict_remove() {
    let mut dict = Dictionary::<i32, String>::new();
    dict.push_back(1, "my_string".into());
    dict.push_back(2, "my_string2".into());
    assert_eq!(dict.remove(1).unwrap(), String::from("my_string"));
    assert_eq!(dict.get(1), None);
    assert_eq!(dict.get(2).unwrap(), String::from("my_string2"));
}

#[test]
fn dict_reserve() {
    let mut dict = Dictionary::<i32, String>::new();
    assert_eq!(dict.capacity(), 0);
    dict.reserve(10);
    assert_eq!(dict.capacity(), 10);
}

#[test]
fn dict_set_capacity() {
    let dict = Dictionary::<i32, String>::with_capacity(30);
    assert_eq!(dict.capacity(), 30);
}

#[test]
fn dict_values() {
    let mut dict = Dictionary::<i32, String>::new();
    dict.push_back(1, "my_string".into());
    dict.push_back(2, "my_string2".into());
    assert_eq!(
        dict.values().to_owned(),
        vec![String::from("my_string"), String::from("my_string2")],
    );
    assert_eq!(
        dict.values(),
        &vec![String::from("my_string"), String::from("my_string2")],
    );
}

#[test]
fn dict_keys() {
    let mut dict = Dictionary::<i32, String>::new();
    dict.push_back(1, "my_string".into());
    dict.push_back(2, "my_string2".into());
    assert_eq!(dict.keys().to_owned(), vec![1, 2],);
    assert_eq!(dict.keys(), &vec![1, 2],);
}

#[test]
fn dict_get_index() {
    let mut dict = Dictionary::<i32, String>::new();
    dict.push_back(1, "my_string".into());
    dict.push_back(2, "my_string2".into());
    assert_eq!(dict.get_index(0), Some(String::from("my_string")));
    assert_eq!(dict.get_index(1), Some(String::from("my_string2")));
}

#[test]
fn dict_test_sort_keys() {
    let mut dict = Dictionary::<i32, String>::new();
    dict.push_back(3, "my_string".into());
    dict.push_back(1, "my_string2".into());
    dict.push_back(2, "my_string3".into());
    dict.push_back(5, "my_string5".into());
    dict.sort_by_keys();
    assert_eq!(
        dict.values(),
        &vec![
            String::from("my_string2"),
            String::from("my_string3"),
            String::from("my_string"),
            String::from("my_string5"),
        ],
    );
    assert_eq!(dict.keys(), &vec![1, 2, 3, 5]);
}

#[test]
fn test_sort_values() {
    let mut dict = Dictionary::<i32, i32>::new();
    dict.push_back(3, 4);
    dict.push_back(1, 7);
    dict.push_back(2, 1);
    dict.push_back(5, 9);
    assert_eq!(dict.len(), 4);
    dict.sort_by_values();
    assert_eq!(dict.values(), &vec![1, 4, 7, 9],);
    assert_eq!(dict.keys(), &vec![2, 3, 1, 5]);
}

#[test]
fn insert() {
    let mut dict = Dictionary::<i32, i32>::new();
    dict.push_back(3, 4);
    dict.push_back(1, 7);
    dict.push_back(2, 1);
    dict.push_back(5, 9);
    dict.insert(6, 7, 2);
    assert_eq!(dict.keys(), &vec![3, 1, 6, 2, 5]);
}

#[test]
fn test_capacity_update() {
    let mut dict = Dictionary::<i32, i32>::new();
    assert_eq!(dict.capacity(), 0);
    dict.push_back(3, 4);
    assert_eq!(dict.capacity(), 2);
    dict.push_back(1, 7);
    dict.push_back(2, 1);
    assert_eq!(dict.capacity(), 4);
    dict.push_back(5, 9);
    dict.push_back(6, 10);
    assert_eq!(dict.capacity(), 8);
}
