use cargo_authors::aggregate::{DependencyAccumulator, Flags, PackageRecord};
use cargo_authors::digest::hash_text;
use cargo_authors::mapping::AggregateMapping;

fn flags() -> Flags {
    Flags {
        json: false,
        hide_authors: false,
        hide_emails: false,
        hide_crates: false,
        ignore_self: false,
        by_crate: false,
        path: None,
    }
}

fn record(name: &str, authors: &[&str]) -> PackageRecord {
    PackageRecord {
        name: name.to_string(),
        authors: authors.iter().map(|a| a.to_string()).collect(),
    }
}

fn scenario_packages() -> Vec<PackageRecord> {
    vec![record("root", &["Alice"]), record("dep1", &["Alice", "Bob"]), record("dep2", &[])]
}

fn listing_of(mapping: &AggregateMapping) -> Vec<(String, Vec<String>)> {
    let mut out = Vec::new();
    for (key, values) in mapping.entries() {
        out.push((key.clone(), values.items().clone()));
    }
    out
}

fn entry(key: &str, values: &[&str]) -> (String, Vec<String>) {
    (key.to_string(), values.iter().map(|v| v.to_string()).collect())
}

#[test]
fn scenario_by_author_without_the_root() {
    let acc = DependencyAccumulator::new(Flags { ignore_self: true, ..flags() });
    let mapping = acc.accumulate("root", &scenario_packages());
    assert_eq!(listing_of(&mapping), vec![entry("Alice", &["dep1"]), entry("Bob", &["dep1"])]);
}

#[test]
fn scenario_by_crate_without_the_root() {
    let acc = DependencyAccumulator::new(Flags { ignore_self: true, by_crate: true, ..flags() });
    let mapping = acc.accumulate("root", &scenario_packages());
    assert_eq!(listing_of(&mapping), vec![entry("dep1", &["Alice", "Bob"])]);
}

#[test]
fn the_root_is_kept_unless_exclusion_is_asked_for() {
    let acc = DependencyAccumulator::new(flags());
    let mapping = acc.accumulate("root", &scenario_packages());
    assert_eq!(
        listing_of(&mapping),
        vec![entry("Alice", &["dep1", "root"]), entry("Bob", &["dep1"])]
    );
}

#[test]
fn self_exclusion_drops_every_record_of_the_root() {
    let packages = vec![
        record("root", &["Alice"]),
        record("dep1", &["Bob"]),
        record("root", &["Carol", "Bob"]),
        record("dep2", &["Alice"]),
    ];
    let acc = DependencyAccumulator::new(Flags { ignore_self: true, ..flags() });
    let mapping = acc.accumulate("root", &packages);
    assert_eq!(listing_of(&mapping), vec![entry("Alice", &["dep2"]), entry("Bob", &["dep1"])]);
    for (_, values) in mapping.entries() {
        assert!(!values.contains("root"));
    }
    assert!(mapping.contains_edge("Bob", "dep1"));
    assert!(mapping.contains_edge("Alice", "dep2"));
}

#[test]
fn self_exclusion_compares_the_name_before_it_is_hidden() {
    let acc = DependencyAccumulator::new(Flags {
        ignore_self: true,
        hide_crates: true,
        ..flags()
    });
    let mapping = acc.accumulate("root", &scenario_packages());
    assert_eq!(
        listing_of(&mapping),
        vec![
            ("Alice".to_string(), vec![hash_text("dep1")]),
            ("Bob".to_string(), vec![hash_text("dep1")]),
        ]
    );
    for (_, values) in mapping.entries() {
        assert!(!values.contains(&hash_text("root")));
        assert!(!values.contains("root"));
    }
}

#[test]
fn a_package_without_authors_never_appears() {
    let acc = DependencyAccumulator::new(Flags { by_crate: true, ..flags() });
    let mapping = acc.accumulate("root", &scenario_packages());
    assert_eq!(
        listing_of(&mapping),
        vec![entry("dep1", &["Alice", "Bob"]), entry("root", &["Alice"])]
    );
    assert!(mapping.get("dep2").is_none());
}

#[test]
fn a_package_given_twice_counts_once() {
    let packages = vec![
        record("dep1", &["Alice", "Bob"]),
        record("dep1", &["Alice", "Bob"]),
        record("dep1", &["Alice", "Alice"]),
    ];
    let acc = DependencyAccumulator::new(flags());
    let mapping = acc.accumulate("root", &packages);
    assert_eq!(listing_of(&mapping), vec![entry("Alice", &["dep1"]), entry("Bob", &["dep1"])]);
    assert_eq!(mapping.edge_count(), 2);
}

#[test]
fn no_packages_give_the_empty_mapping() {
    let acc = DependencyAccumulator::new(Flags { ignore_self: true, by_crate: true, ..flags() });
    let mapping = acc.accumulate("root", &Vec::new());
    assert!(mapping.is_empty());
    let forward = DependencyAccumulator::new(flags()).aggregate("root", &Vec::new());
    assert!(forward.is_empty());
}

#[test]
fn hidden_authors_are_digests_of_the_whole_string() {
    let packages = vec![record("dep1", &["Jane Doe <jane@example.com>"])];
    let acc = DependencyAccumulator::new(Flags { hide_authors: true, hide_emails: true, ..flags() });
    let mapping = acc.accumulate("root", &packages);
    assert_eq!(
        listing_of(&mapping),
        vec![(hash_text("Jane Doe <jane@example.com>"), vec!["dep1".to_string()])]
    );
}

#[test]
fn hidden_emails_keep_the_display_name() {
    let packages = vec![record("dep1", &["Jane Doe <jane@example.com>", "Jane Doe"])];
    let acc = DependencyAccumulator::new(Flags { hide_emails: true, ..flags() });
    let mapping = acc.accumulate("root", &packages);
    assert_eq!(
        listing_of(&mapping),
        vec![
            entry("Jane Doe", &["dep1"]),
            (format!("Jane Doe <{}>", hash_text("jane@example.com")), vec!["dep1".to_string()]),
        ]
    );
}

#[test]
fn hidden_crates_are_digests_on_either_side() {
    let packages = vec![record("dep1", &["Alice"]), record("dep2", &["Alice"])];
    let forward = DependencyAccumulator::new(Flags { hide_crates: true, ..flags() })
        .accumulate("root", &packages);
    let mut names = vec![hash_text("dep1"), hash_text("dep2")];
    names.sort();
    assert_eq!(listing_of(&forward), vec![("Alice".to_string(), names.clone())]);
    let inverted = DependencyAccumulator::new(Flags {
        hide_crates: true,
        by_crate: true,
        ..flags()
    }).accumulate("root", &packages);
    assert_eq!(
        listing_of(&inverted),
        vec![
            (names[0].clone(), vec!["Alice".to_string()]),
            (names[1].clone(), vec!["Alice".to_string()]),
        ]
    );
}

#[test]
fn aggregate_ignores_the_grouping_option() {
    let acc = DependencyAccumulator::new(Flags { by_crate: true, ignore_self: true, ..flags() });
    let forward = acc.aggregate("root", &scenario_packages());
    assert_eq!(listing_of(&forward), vec![entry("Alice", &["dep1"]), entry("Bob", &["dep1"])]);
    let grouped = acc.accumulate("root", &scenario_packages());
    assert_eq!(listing_of(&grouped), listing_of(&forward.invert()));
    assert_eq!(grouped.edge_count(), forward.edge_count());
}

#[test]
fn project_path_defaults_to_the_current_directory() {
    assert_eq!(flags().project_path(), ".");
    let given = Flags { path: Some("/tmp/project".to_string()), ..flags() };
    assert_eq!(given.project_path(), "/tmp/project");
}
