use tracked_subnets::merge::{insert_id, merge};
use tracked_subnets::order::str_lt;
use tracked_subnets::segments::{join_ids, split_ids};

#[test]
fn absent_list_gets_the_new_id() {
    assert_eq!(merge(None, "x"), Some("x".to_string()));
}

#[test]
fn empty_segments_are_dropped() {
    assert_eq!(merge(Some(",a,,b,"), "c"), Some("a,b,c".to_string()));
}

#[test]
fn duplicate_new_id_is_not_added() {
    assert_eq!(merge(Some("a,b"), "a"), Some("a,b".to_string()));
}

#[test]
fn output_is_sorted_whatever_the_input_order() {
    assert_eq!(merge(Some("c,a"), "b"), Some("a,b,c".to_string()));
    assert_eq!(merge(Some("b,c,a"), "d"), Some("a,b,c,d".to_string()));
}

#[test]
fn merging_twice_changes_nothing() {
    let once = merge(Some("b,,a"), "c");
    let twice = merge(once.as_deref(), "c");
    assert_eq!(once, Some("a,b,c".to_string()));
    assert_eq!(twice, once);
}

#[test]
fn merge_order_does_not_matter() {
    let xy = merge(merge(Some("m"), "x").as_deref(), "y");
    let yx = merge(merge(Some("m"), "y").as_deref(), "x");
    assert_eq!(xy, Some("m,x,y".to_string()));
    assert_eq!(xy, yx);
}

#[test]
fn no_identifier_is_lost() {
    let out = merge(Some("zeta,alpha,mid"), "beta").unwrap();
    let entries: Vec<&str> = out.split(',').collect();
    for id in ["zeta", "alpha", "mid", "beta"] {
        assert!(entries.contains(&id));
    }
}

#[test]
fn empty_new_id_keeps_the_list() {
    assert_eq!(merge(Some("b,a"), ""), Some("a,b".to_string()));
}

#[test]
fn nothing_to_hold_returns_none() {
    assert_eq!(merge(None, ""), None);
    assert_eq!(merge(Some(""), ""), None);
    assert_eq!(merge(Some(",,,"), ""), None);
}

#[test]
fn empty_existing_list_gets_the_new_id() {
    assert_eq!(merge(Some(""), "x"), Some("x".to_string()));
}

#[test]
fn repeated_entries_collapse() {
    assert_eq!(merge(Some("a,a,a"), "a"), Some("a".to_string()));
}

#[test]
fn subnet_id_sized_tokens_merge() {
    let existing = "2ebCneCbwthjQ1rYT41nhd7M76Hc6YmosMAQrTFhBq8qeqh6tt";
    let new_id = "29uVeLPJB1eQJkzRemU8g8wZDw5uJRqpab5U2mX9euieVwiEbL";
    let out = merge(Some(existing), new_id).unwrap();
    assert_eq!(out, format!("{},{}", new_id, existing));
}

#[test]
fn split_ids_drops_empty_segments() {
    let parts = split_ids(",a,,b,");
    assert_eq!(parts, vec!["a".to_string(), "b".to_string()]);
}

#[test]
fn join_ids_puts_one_comma_between_entries() {
    let ids = vec!["a".to_string(), "b".to_string(), "c".to_string()];
    assert_eq!(join_ids(&ids), "a,b,c".to_string());
    assert_eq!(join_ids(&vec![]), "".to_string());
    assert_eq!(join_ids(&vec!["only".to_string()]), "only".to_string());
}

#[test]
fn str_lt_is_lexicographic() {
    assert!(str_lt("abc", "abd"));
    assert!(str_lt("ab", "abc"));
    assert!(!str_lt("abc", "ab"));
    assert!(!str_lt("b", "ab"));
    assert!(!str_lt("a", "a"));
    assert!(str_lt("", "a"));
}

#[test]
fn insert_id_keeps_the_vector_sorted_and_unique() {
    let mut ids = vec!["b".to_string(), "d".to_string()];
    insert_id(&mut ids, "c".to_string());
    assert_eq!(ids, vec!["b".to_string(), "c".to_string(), "d".to_string()]);
    insert_id(&mut ids, "c".to_string());
    assert_eq!(ids, vec!["b".to_string(), "c".to_string(), "d".to_string()]);
    insert_id(&mut ids, "a".to_string());
    assert_eq!(ids, vec!["a".to_string(), "b".to_string(), "c".to_string(), "d".to_string()]);
    insert_id(&mut ids, "e".to_string());
    assert_eq!(
        ids,
        vec!["a".to_string(), "b".to_string(), "c".to_string(), "d".to_string(), "e".to_string()]
    );
}
