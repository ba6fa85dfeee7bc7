use egonet::circles::Circles;
use std::collections::HashSet;

#[test]
fn new_circles_hold_nothing() {
    let circles = Circles::new();
    assert_eq!(circles.len(), 0);
    assert_eq!(circles.get(&"friends".to_string()), None);
}

#[test]
fn insert_then_get() {
    let mut circles = Circles::new();
    circles.insert("friends".to_string(), HashSet::from([1, 2, 3]));
    circles.insert("family".to_string(), HashSet::from([4]));
    assert_eq!(circles.len(), 2);
    assert_eq!(
        circles.get(&"friends".to_string()),
        Some(&HashSet::from([1, 2, 3]))
    );
    assert_eq!(circles.get(&"family".to_string()), Some(&HashSet::from([4])));
    assert_eq!(circles.get(&"work".to_string()), None);
}

#[test]
fn insert_under_a_known_name_replaces() {
    let mut circles = Circles::new();
    circles.insert("friends".to_string(), HashSet::from([1, 2, 3]));
    circles.insert("family".to_string(), HashSet::from([4]));
    circles.insert("friends".to_string(), HashSet::from([9]));
    assert_eq!(circles.len(), 2);
    assert_eq!(circles.get(&"friends".to_string()), Some(&HashSet::from([9])));
    assert_eq!(circles.get(&"family".to_string()), Some(&HashSet::from([4])));
}

#[test]
fn the_empty_name_is_a_name() {
    let mut circles = Circles::new();
    circles.insert(String::new(), HashSet::new());
    assert_eq!(circles.len(), 1);
    assert_eq!(circles.get(&String::new()), Some(&HashSet::new()));
}
