use cargo_authors::aggregate::{DependencyAccumulator, Flags, PackageRecord};
use cargo_authors::mapping::AggregateMapping;
use cargo_authors::present::{
    banner, join_values, max_key_width, pad_key, render_line, render_lines, render_text,
    AuthorsResult,
};

fn mapping_from(edges: &[(&str, &str)]) -> AggregateMapping {
    let mut mapping = AggregateMapping::new();
    for (key, value) in edges {
        mapping.insert(key.to_string(), value.to_string());
    }
    mapping
}

fn texts(values: &[&str]) -> Vec<String> {
    values.iter().map(|v| v.to_string()).collect()
}

#[test]
fn wraps_the_mapping_under_entries() {
    let doc = AuthorsResult::new(mapping_from(&[("Alice", "dep1")]));
    assert!(doc.entries.contains_edge("Alice", "dep1"));
    assert_eq!(doc.entries.len(), 1);
    let empty = AuthorsResult::new(AggregateMapping::new());
    assert!(empty.entries.is_empty());
}

#[test]
fn max_key_width_of_the_empty_mapping_is_zero() {
    assert_eq!(max_key_width(&AggregateMapping::new()), 0);
}

#[test]
fn max_key_width_is_the_longest_key() {
    let mapping = mapping_from(&[("Al", "dep1"), ("Barbara", "dep1"), ("Cy", "dep2")]);
    assert_eq!(max_key_width(&mapping), 7);
}

#[test]
fn max_key_width_counts_bytes() {
    let mapping = mapping_from(&[("Zoë", "dep1"), ("Bob", "dep1")]);
    assert_eq!(max_key_width(&mapping), 4);
}

#[test]
fn pad_key_fills_with_spaces_on_the_right() {
    assert_eq!(pad_key("Bob", 5), "Bob  ");
    assert_eq!(pad_key("Bob", 3), "Bob");
    assert_eq!(pad_key("Bob", 0), "Bob");
    assert_eq!(pad_key("", 2), "  ");
    assert_eq!(pad_key("Zoë", 4), "Zoë ");
    assert_eq!(pad_key("Bob", 5), format!("{:<5}", "Bob"));
}

#[test]
fn join_values_with_comma_and_space() {
    assert_eq!(join_values(&texts(&[])), "");
    assert_eq!(join_values(&texts(&["dep1"])), "dep1");
    assert_eq!(join_values(&texts(&["dep1", "dep2", "dep3"])), "dep1, dep2, dep3");
}

#[test]
fn render_line_exact() {
    assert_eq!(render_line("Bob", &texts(&["dep1", "dep2"]), 5), "Bob  : dep1, dep2");
    assert_eq!(render_line("Alice", &texts(&["dep1"]), 5), "Alice: dep1");
}

#[test]
fn render_lines_aligns_the_colons() {
    let mapping = mapping_from(&[("Bob", "dep1"), ("Alice", "dep2"), ("Alice", "dep1")]);
    assert_eq!(render_lines(&mapping), texts(&["Alice: dep1, dep2", "Bob  : dep1"]));
}

#[test]
fn render_lines_of_the_empty_mapping() {
    assert!(render_lines(&AggregateMapping::new()).is_empty());
}

#[test]
fn banner_names_the_grouping() {
    assert_eq!(banner(false), "Authors and their respective crates for this crate:");
    assert_eq!(banner(true), "Crates and their respective authors for this crate:");
}

#[test]
fn render_text_of_the_empty_mapping_is_well_formed() {
    assert_eq!(
        render_text(&AggregateMapping::new(), false),
        texts(&["Authors and their respective crates for this crate:", ""])
    );
}

#[test]
fn render_text_of_the_scenario() {
    let packages = vec![
        PackageRecord { name: "root".to_string(), authors: texts(&["Alice"]) },
        PackageRecord { name: "dep1".to_string(), authors: texts(&["Alice", "Bob"]) },
        PackageRecord { name: "dep2".to_string(), authors: texts(&[]) },
    ];
    let flags = Flags {
        json: false,
        hide_authors: false,
        hide_emails: false,
        hide_crates: false,
        ignore_self: true,
        by_crate: false,
        path: None,
    };
    let mapping = DependencyAccumulator::new(flags.clone()).accumulate("root", &packages);
    assert_eq!(
        render_text(&mapping, false),
        texts(&[
            "Authors and their respective crates for this crate:",
            "",
            "Alice: dep1",
            "Bob  : dep1",
        ])
    );
    let by_crate = DependencyAccumulator::new(Flags { by_crate: true, ..flags })
        .accumulate("root", &packages);
    assert_eq!(
        render_text(&by_crate, true),
        texts(&["Crates and their respective authors for this crate:", "", "dep1: Alice, Bob"])
    );
}
