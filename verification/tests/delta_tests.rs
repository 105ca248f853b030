use hotreload::delta::compute_delta;
use hotreload::imports::ImportSet;

fn set_of(names: &[&str]) -> ImportSet {
    let mut s = ImportSet::new();
    for n in names {
        s.insert(n.to_string());
    }
    s
}

#[test]
fn delta_of_equal_sets_is_empty() {
    let s = set_of(&["json", "os"]);
    let d = compute_delta(&s, &s);
    assert!(d.added.modules.is_empty());
    assert!(d.removed.modules.is_empty());
}

#[test]
fn delta_of_single_addition() {
    let prev = set_of(&["json", "os"]);
    let cur = set_of(&["json", "os", "yaml"]);
    let d = compute_delta(&prev, &cur);
    assert_eq!(d.added.modules, vec!["yaml".to_string()]);
    assert!(d.removed.modules.is_empty());
}

#[test]
fn delta_is_antisymmetric() {
    let a = set_of(&["json", "os", "re"]);
    let b = set_of(&["os", "yaml"]);
    let fwd = compute_delta(&a, &b);
    let bwd = compute_delta(&b, &a);
    let mut fwd_added = fwd.added.modules.clone();
    let mut bwd_removed = bwd.removed.modules.clone();
    fwd_added.sort();
    bwd_removed.sort();
    assert_eq!(fwd_added, bwd_removed);
    let mut fwd_removed = fwd.removed.modules.clone();
    let mut bwd_added = bwd.added.modules.clone();
    fwd_removed.sort();
    bwd_added.sort();
    assert_eq!(fwd_removed, bwd_added);
}

#[test]
fn delta_insertion_order_does_not_matter() {
    let a = set_of(&["one", "two"]);
    let b = set_of(&["two", "one"]);
    let d = compute_delta(&a, &b);
    assert!(d.added.modules.is_empty());
    assert!(d.removed.modules.is_empty());
}

#[test]
fn import_set_deduplicates() {
    let mut s = ImportSet::new();
    s.insert("json".to_string());
    s.insert("json".to_string());
    assert_eq!(s.modules, vec!["json".to_string()]);
    assert!(s.contains_name(&"json".to_string()));
    assert!(!s.contains_name(&"os".to_string()));
}
