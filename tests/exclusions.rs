use difftoml::keys::{dotted_form, filter_keys, split_exclusions};

fn key(segments: &[&str]) -> Vec<String> {
    segments.iter().map(|s| String::from(*s)).collect()
}

#[test]
fn dotted_form_joins_segments() {
    assert_eq!("server.timeout", dotted_form(&key(&["server", "timeout"])));
    assert_eq!("a", dotted_form(&key(&["a"])));
    assert_eq!("", dotted_form(&Vec::<String>::new()));
}

#[test]
fn split_exclusions_keeps_tokens_as_written() {
    assert_eq!(vec!["key1", "key2.key3"], split_exclusions("key1,key2.key3"));
    assert_eq!(vec![" a", "b "], split_exclusions(" a,b "));
    assert_eq!(vec![""], split_exclusions(""));
    assert_eq!(vec!["a", ""], split_exclusions("a,"));
}

#[test]
fn exclusion_matches_inside_a_segment() {
    let keys = vec![key(&["containskey1inside"]), key(&["key0", "ke", "y1key2"])];
    let kept = filter_keys(&keys, Some(String::from("key1")));
    assert_eq!(vec![key(&["key0", "ke", "y1key2"])], kept);
}

#[test]
fn exclusion_list_is_a_union() {
    let keys = vec![key(&["key1"]), key(&["key2", "key3"]), key(&["key4"])];
    let kept = filter_keys(&keys, Some(String::from("key1,key2.key3")));
    assert_eq!(vec![key(&["key4"])], kept);
}

#[test]
fn trailing_comma_excludes_every_key() {
    let keys = vec![key(&["key1"]), key(&["other"])];
    let kept = filter_keys(&keys, Some(String::from("nothing,")));
    assert!(kept.is_empty());
}

#[test]
fn filter_keeps_duplicates_and_order() {
    let keys = vec![key(&["b"]), key(&["a"]), key(&["b"]), key(&["x"])];
    let kept = filter_keys(&keys, Some(String::from("x")));
    assert_eq!(vec![key(&["b"]), key(&["a"]), key(&["b"])], kept);
    let all = filter_keys(&keys, None);
    assert_eq!(keys, all);
}
