use accumulo_access::caching::AuthzCacheStats;
use accumulo_access::Authorizations;
use std::collections::HashSet;

#[test]
fn authorizations_of_holds_what_it_was_given() {
    let authorizations = Authorizations::of(&["label1".to_string(), "label5".to_string()]);
    assert!(authorizations.contains("label1"));
    assert!(authorizations.contains("label5"));
    assert!(!authorizations.contains("label2"));
    assert!(!authorizations.contains(""));
    assert!(!authorizations.contains("label"));
    assert!(!authorizations.contains("label11"));
}

#[test]
fn authorizations_to_set_is_the_set_of_the_values() {
    let authorizations = Authorizations::of(&[
        "label1".to_string(),
        "label5".to_string(),
        "label1".to_string(),
    ]);
    let expected: HashSet<String> =
        HashSet::from_iter(vec!["label1".to_string(), "label5".to_string()]);
    assert_eq!(authorizations.to_set(), expected);
}

#[test]
fn authorizations_of_nothing_holds_nothing() {
    let authorizations = Authorizations::of(&[]);
    assert!(!authorizations.contains("label1"));
    assert!(!authorizations.contains(""));
    assert_eq!(authorizations.to_set(), HashSet::new());
}

#[test]
fn authorizations_new_takes_string_slices() {
    let authorizations = Authorizations::new(&["label2", "label3", "a b c"]);
    assert!(authorizations.is_authorized_for("label2"));
    assert!(authorizations.is_authorized_for("label3"));
    assert!(authorizations.is_authorized_for("a b c"));
    assert!(!authorizations.is_authorized_for("label1"));
    assert!(authorizations.contains("label3"));
}

#[test]
fn authorizations_clone_holds_the_same() {
    let authorizations = Authorizations::new(&["x", "y"]);
    let copy = authorizations.clone();
    assert_eq!(copy.to_set(), authorizations.to_set());
    assert!(copy.contains("x"));
    assert!(copy.contains("y"));
    assert!(!copy.contains("z"));
}

#[test]
fn cache_stats_hold_their_figures() {
    let stats = AuthzCacheStats::new(3, 4, 5);
    assert_eq!(stats.hits, 3);
    assert_eq!(stats.misses, 4);
    assert_eq!(stats.size, 5);
    assert_eq!(stats, AuthzCacheStats { hits: 3, misses: 4, size: 5 });
}

#[test]
fn authorizations_are_equal_as_sets() {
    let one = Authorizations::new(&["a", "b", "c"]);
    let other = Authorizations::of(&["c".to_string(), "a".to_string(), "b".to_string(), "a".to_string()]);
    let fewer = Authorizations::new(&["a", "b"]);
    let others = Authorizations::new(&["a", "b", "d"]);
    assert!(one == other);
    assert!(other == one);
    assert!(one.same_as(&other));
    assert!(one != fewer);
    assert!(fewer != one);
    assert!(one != others);
    assert!(Authorizations::new(&[]) == Authorizations::of(&[]));
    assert!(Authorizations::new(&[]) != fewer);
}

#[test]
fn to_set_holds_each_token_once() {
    let held = Authorizations::new(&["x", "y", "x", ""]);
    let set = held.to_set();
    assert_eq!(set.len(), 3);
    assert!(set.contains("x"));
    assert!(set.contains("y"));
    assert!(set.contains(""));
    assert!(!set.contains("z"));
}
