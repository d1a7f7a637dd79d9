use difftoml::keys::{compare_vectors, filter_keys, CompareError};

#[test]
fn test_compare_vectors() {
    let v1 = vec![1, 2, 3, 4, 5, 6];
    let v2 = vec![4, 5, 6, 7, 8, 9];

    match compare_vectors(&v1, &v2) {
        Ok(result) => {
            assert_eq!(vec![1, 2, 3], result.first_only());
            assert_eq!(vec![7, 8, 9], result.second_only());
            assert_eq!(vec![4, 5, 6], result.both());
        }
        Err(_) => {
            assert!(false);
        }
    }
}

#[test]
fn test_filter_keys_1() {
    let keys = vec![
            vec![String::from("key1")],
            vec![String::from("key2"), String::from("key3")],
            vec![String::from("key4"), String::from("key5"), String::from("key6")],
        ];
    let blackstr = None;
    let test = filter_keys(&keys, blackstr);
    let correct = vec![
            vec![String::from("key1")],
            vec![String::from("key2"), String::from("key3")],
            vec![String::from("key4"), String::from("key5"), String::from("key6")],
        ];
    assert_eq!(correct, test);
}

#[test]
fn test_filter_keys_2() {
    let keys = vec![
            vec![String::from("key1")],
            vec![String::from("key2"), String::from("key3")],
            vec![String::from("key4"), String::from("key5"), String::from("key6")],
        ];
    let blackstr = Some(String::from("key1"));
    let test = filter_keys(&keys, blackstr);
    let correct = vec![
            vec![String::from("key2"), String::from("key3")],
            vec![String::from("key4"), String::from("key5"), String::from("key6")],
        ];
    assert_eq!(correct, test);
}

#[test]
fn test_filter_keys_3() {
    let keys = vec![
            vec![String::from("key1")],
            vec![String::from("key2"), String::from("key3")],
            vec![String::from("key4"), String::from("key5"), String::from("key6")],
        ];
    let blackstr = Some(String::from("key3"));
    let test = filter_keys(&keys, blackstr);
    let correct = vec![
            vec![String::from("key1")],
            vec![String::from("key4"), String::from("key5"), String::from("key6")],
        ];
    assert_eq!(correct, test);
}

#[test]
fn test_filter_keys_4() {
    let keys = vec![
            vec![String::from("key1")],
            vec![String::from("key2"), String::from("key3")],
            vec![String::from("key4"), String::from("key5"), String::from("key6")],
        ];
    let blackstr = Some(String::from("key"));
    let test = filter_keys(&keys, blackstr);
    let correct = Vec::<Vec<String>>::new();
    assert_eq!(correct, test);
}

#[test]
fn test_filter_keys_5() {
    let keys = vec![
            vec![String::from("key1")],
            vec![String::from("key2"), String::from("key3")],
            vec![String::from("key4"), String::from("key5"), String::from("key6")],
        ];
    let blackstr = Some(String::from("ke.y1"));
    let test = filter_keys(&keys, blackstr);
    let correct = vec![
            vec![String::from("key1")],
            vec![String::from("key2"), String::from("key3")],
            vec![String::from("key4"), String::from("key5"), String::from("key6")],
        ];
    assert_eq!(correct, test);
}

#[test]
fn test_filter_keys_6() {
    let keys = vec![
            vec![String::from("key1")],
            vec![String::from("key2"), String::from("key3")],
            vec![String::from("key2"), String::from("key3"), String::from("key4")],
            vec![String::from("key4"), String::from("key5"), String::from("key6")],
        ];
    let blackstr = Some(String::from("key2.key3"));
    let test = filter_keys(&keys, blackstr);
    let correct = vec![
            vec![String::from("key1")],
            vec![String::from("key4"), String::from("key5"), String::from("key6")],
        ];
    assert_eq!(correct, test);
}

#[test]
fn test_filter_keys_7() {
    let keys = vec![
            vec![String::from("key1")],
            vec![String::from("key2"), String::from("key3")],
            vec![String::from("key2"), String::from("key3"), String::from("key4")],
            vec![String::from("key4"), String::from("key5"), String::from("key6")],
        ];
    let blackstr = Some(String::from("key2.key3.key4"));
    let test = filter_keys(&keys, blackstr);
    let correct = vec![
            vec![String::from("key1")],
            vec![String::from("key2"), String::from("key3")],
            vec![String::from("key4"), String::from("key5"), String::from("key6")],
        ];
    assert_eq!(correct, test);
}

/// An equality that is not symmetric: `a == b` when `a` is at most `b`.
#[derive(Debug, Clone)]
struct Skewed(i32);

impl PartialEq for Skewed {
    fn eq(&self, other: &Skewed) -> bool {
        self.0 <= other.0
    }
}

impl Eq for Skewed {}

#[test]
fn compare_vectors_rejects_asymmetric_equality() {
    let first = vec![Skewed(1)];
    let second = vec![Skewed(2)];
    match compare_vectors(&first, &second) {
        Ok(_) => panic!("an asymmetric equality must be reported"),
        Err(e) => assert_eq!(e, CompareError::AsymmetricComparison),
    }
}

#[test]
fn compare_vectors_disjoint_inputs() {
    let first = vec![1, 2];
    let second = vec![3];
    let result = compare_vectors(&first, &second).unwrap();
    assert_eq!(vec![1, 2], result.first_only());
    assert_eq!(vec![3], result.second_only());
    assert!(result.both().is_empty());
}

#[test]
fn compare_vectors_empty_inputs() {
    let first: Vec<u8> = vec![];
    let second: Vec<u8> = vec![];
    let result = compare_vectors(&first, &second).unwrap();
    assert!(result.first_only().is_empty());
    assert!(result.second_only().is_empty());
    assert!(result.both().is_empty());
}

#[test]
fn compare_vectors_groups_cover_both_inputs_once() {
    let first = vec![10, 3, 7, 1];
    let second = vec![7, 2, 10];
    let result = compare_vectors(&first, &second).unwrap();
    let mut all: Vec<i32> = result.first_only();
    all.extend(result.both());
    all.extend(result.second_only());
    all.sort();
    assert_eq!(vec![1, 2, 3, 7, 10], all);
    assert_eq!(vec![3, 1], result.first_only());
    assert_eq!(vec![2], result.second_only());
    assert_eq!(vec![10, 7], result.both());
}

#[test]
fn compare_vectors_on_key_paths() {
    let first = vec![
        vec![String::from("a"), String::from("b")],
        vec![String::from("a"), String::from("c")],
    ];
    let second = vec![
        vec![String::from("a"), String::from("c")],
        vec![String::from("a.c")],
    ];
    let result = compare_vectors(&first, &second).unwrap();
    assert_eq!(vec![vec![String::from("a"), String::from("b")]], result.first_only());
    assert_eq!(vec![vec![String::from("a.c")]], result.second_only());
    assert_eq!(vec![vec![String::from("a"), String::from("c")]], result.both());
}
