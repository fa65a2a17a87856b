use cargo_authors::mapping::AggregateMapping;
use cargo_authors::text_set::TextSet;

fn listing(mapping: &AggregateMapping) -> Vec<(String, Vec<String>)> {
    let mut out = Vec::new();
    for (key, values) in mapping.entries() {
        out.push((key.clone(), values.items().clone()));
    }
    out
}

fn mapping_from(edges: &[(&str, &str)]) -> AggregateMapping {
    let mut mapping = AggregateMapping::new();
    for (key, value) in edges {
        mapping.insert(key.to_string(), value.to_string());
    }
    mapping
}

fn entry(key: &str, values: &[&str]) -> (String, Vec<String>) {
    (key.to_string(), values.iter().map(|v| v.to_string()).collect())
}

#[test]
fn text_set_keeps_members_sorted_and_once() {
    let mut set = TextSet::new();
    assert!(set.is_empty());
    assert!(set.insert("dep2".to_string()));
    assert!(set.insert("dep1".to_string()));
    assert!(!set.insert("dep2".to_string()));
    assert!(set.insert("dep10".to_string()));
    assert_eq!(set.items(), &vec!["dep1".to_string(), "dep10".to_string(), "dep2".to_string()]);
    assert_eq!(set.len(), 3);
    assert!(set.contains("dep10"));
    assert!(!set.contains("dep3"));
    assert!(!set.is_empty());
}

#[test]
fn new_mapping_is_empty() {
    let mapping = AggregateMapping::new();
    assert!(mapping.is_empty());
    assert_eq!(mapping.len(), 0);
    assert_eq!(mapping.edge_count(), 0);
    assert!(listing(&mapping).is_empty());
    assert!(mapping.get("Alice").is_none());
}

#[test]
fn insert_groups_by_key_in_order() {
    let mapping = mapping_from(&[("Bob", "dep1"), ("Alice", "dep2"), ("Alice", "dep1")]);
    assert_eq!(
        listing(&mapping),
        vec![entry("Alice", &["dep1", "dep2"]), entry("Bob", &["dep1"])]
    );
    assert_eq!(mapping.len(), 2);
    assert_eq!(mapping.edge_count(), 3);
}

#[test]
fn insert_of_an_edge_that_is_there_changes_nothing() {
    let once = mapping_from(&[("Alice", "dep1"), ("Bob", "dep1")]);
    let twice = mapping_from(&[("Alice", "dep1"), ("Bob", "dep1"), ("Alice", "dep1")]);
    assert_eq!(listing(&once), listing(&twice));
    assert_eq!(twice.edge_count(), 2);
}

#[test]
fn insert_order_does_not_matter() {
    let a = mapping_from(&[("x", "1"), ("y", "2"), ("x", "3"), ("a", "9")]);
    let b = mapping_from(&[("a", "9"), ("x", "3"), ("y", "2"), ("x", "1")]);
    assert_eq!(listing(&a), listing(&b));
}

#[test]
fn get_and_contains_edge() {
    let mapping = mapping_from(&[("Alice", "dep1"), ("Alice", "dep2"), ("Bob", "dep1")]);
    let alice = mapping.get("Alice").unwrap();
    assert_eq!(alice.items(), &vec!["dep1".to_string(), "dep2".to_string()]);
    assert!(mapping.get("Carol").is_none());
    assert!(mapping.contains_edge("Alice", "dep2"));
    assert!(mapping.contains_edge("Bob", "dep1"));
    assert!(!mapping.contains_edge("Bob", "dep2"));
    assert!(!mapping.contains_edge("dep1", "Alice"));
}

#[test]
fn no_key_has_an_empty_set() {
    let mapping = mapping_from(&[("Alice", "dep1"), ("Bob", "dep1"), ("Carol", "dep3")]);
    for (_, values) in mapping.entries() {
        assert!(!values.is_empty());
    }
}

#[test]
fn invert_turns_every_edge_round() {
    let mapping = mapping_from(&[("Alice", "dep1"), ("Bob", "dep1"), ("Alice", "dep2")]);
    let inverted = mapping.invert();
    assert_eq!(
        listing(&inverted),
        vec![entry("dep1", &["Alice", "Bob"]), entry("dep2", &["Alice"])]
    );
}

#[test]
fn invert_of_the_empty_mapping_is_empty() {
    assert!(AggregateMapping::new().invert().is_empty());
}

#[test]
fn inversion_round_trip() {
    let mapping = mapping_from(&[
        ("Alice", "dep1"),
        ("Bob", "dep1"),
        ("Alice", "dep2"),
        ("Carol <c@x.org>", "dep3"),
        ("Bob", "dep3"),
    ]);
    let back = mapping.invert().invert();
    assert_eq!(listing(&back), listing(&mapping));
}

#[test]
fn grouping_keeps_the_number_of_edges() {
    let mapping = mapping_from(&[
        ("Alice", "dep1"),
        ("Bob", "dep1"),
        ("Alice", "dep2"),
        ("Carol", "dep3"),
        ("Bob", "dep3"),
        ("Bob", "dep1"),
    ]);
    assert_eq!(mapping.edge_count(), 5);
    assert_eq!(mapping.invert().edge_count(), 5);
    let by_hand: usize = mapping.invert().entries().iter().map(|(_, v)| v.items().len()).sum();
    assert_eq!(by_hand, 5);
}
