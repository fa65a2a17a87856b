use cargo_authors::author::{
    compose_author, display_name, hide_email, mask_email, normalize_author, AuthorParts,
};
use cargo_authors::digest::hash_text;

#[test]
fn compose_name_and_address() {
    let name = Some(String::from("Jane Doe"));
    let address = Some(String::from("jane@example.com"));
    assert_eq!(compose_author(&name, &address), "Jane Doe <jane@example.com>");
}

#[test]
fn compose_name_alone() {
    assert_eq!(compose_author(&Some(String::from("Jane Doe")), &None), "Jane Doe");
}

#[test]
fn compose_address_alone() {
    assert_eq!(compose_author(&None, &Some(String::from("j@x.org"))), "<j@x.org>");
}

#[test]
fn compose_nothing() {
    assert_eq!(compose_author(&None, &None), "");
}

#[test]
fn mask_replaces_the_address_by_its_digest() {
    let parts = AuthorParts {
        name: Some(String::from("Jane Doe")),
        email: Some(String::from("jane@example.com")),
    };
    let expected = format!("Jane Doe <{}>", hash_text("jane@example.com"));
    assert_eq!(mask_email("Jane Doe <jane@example.com>", &parts), expected);
}

#[test]
fn mask_without_address_keeps_the_raw_text() {
    let parts = AuthorParts { name: Some(String::from("Jane Doe")), email: None };
    assert_eq!(mask_email("  Jane Doe  ", &parts), "  Jane Doe  ");
    let nothing = AuthorParts { name: None, email: None };
    assert_eq!(mask_email("???", &nothing), "???");
}

#[test]
fn mask_without_name_shows_the_digest_alone() {
    let parts = AuthorParts { name: None, email: Some(String::from("raw@email.com")) };
    let expected = format!("<{}>", hash_text("raw@email.com"));
    assert_eq!(mask_email("raw@email.com", &parts), expected);
}

#[test]
fn email_hide_partial_transform() {
    let expected = format!("Jane Doe <{}>", hash_text("jane@example.com"));
    assert_eq!(hide_email("Jane Doe <jane@example.com>"), expected);
    assert_eq!(
        hide_email("Jane Doe <jane@example.com>"),
        "Jane Doe <".to_string() + &hash_text("jane@example.com") + ">"
    );
}

#[test]
fn email_hide_without_email_is_unchanged() {
    assert_eq!(hide_email("Jane Doe"), "Jane Doe");
    assert_eq!(hide_email(""), "");
}

#[test]
fn email_hide_keeps_no_part_of_the_address() {
    let shown = hide_email("Jane Doe <jane@example.com>");
    assert!(!shown.contains("jane@example.com"));
    assert!(!shown.contains('@'));
    assert!(shown.starts_with("Jane Doe <"));
    assert!(shown.ends_with('>'));
    assert_eq!(shown.len(), "Jane Doe <>".len() + 40);
}

#[test]
fn normalize_passes_through_by_default() {
    assert_eq!(
        normalize_author("Jane Doe <jane@example.com>", false, false),
        "Jane Doe <jane@example.com>"
    );
}

#[test]
fn normalize_hides_the_whole_author() {
    let raw = "Jane Doe <jane@example.com>";
    assert_eq!(normalize_author(raw, true, false), hash_text(raw));
}

#[test]
fn normalize_hiding_authors_wins_over_hiding_emails() {
    let raw = "Jane Doe <jane@example.com>";
    assert_eq!(normalize_author(raw, true, true), hash_text(raw));
}

#[test]
fn normalize_hides_the_email_only() {
    let raw = "Jane Doe <jane@example.com>";
    let expected = format!("Jane Doe <{}>", hash_text("jane@example.com"));
    assert_eq!(normalize_author(raw, false, true), expected);
    assert_eq!(normalize_author("Jane Doe", false, true), "Jane Doe");
}

#[test]
fn display_name_as_given_or_as_digest() {
    assert_eq!(display_name("serde", false), "serde");
    assert_eq!(display_name("serde", true), hash_text("serde"));
}
