use cargo_authors::digest::{hash_text, to_hex_lower};

#[test]
fn hex_of_bytes_is_two_lower_case_digits_per_byte() {
    assert_eq!(to_hex_lower(&[0x0a, 0x14, 0x1e]), "0a141e");
    assert_eq!(to_hex_lower(&[0x00, 0xff, 0x9c, 0xb7]), "00ff9cb7");
    assert_eq!(to_hex_lower(&[]), "");
}

#[test]
fn digest_of_known_texts() {
    assert_eq!(hash_text(""), "9c1185a5c5e9fc54612808977ee8f548b2258d31");
    assert_eq!(hash_text("a"), "0bdc9d2d256b3ee9daae347be6f4dc835a467ffe");
    assert_eq!(hash_text("abc"), "8eb208f7e05d987a9b044a8e98c6b087f15a0bfc");
    assert_eq!(hash_text("message digest"), "5d0689ef49d2fae572b881b123a85ffa21595f36");
}

#[test]
fn digest_is_forty_lower_case_hex_digits() {
    for text in ["", "serde", "Jane Doe <jane@example.com>", "Ünïcödé ✓"] {
        let hex = hash_text(text);
        assert_eq!(hex.len(), 40);
        assert!(hex.chars().all(|c| matches!(c, '0'..='9' | 'a'..='f')));
    }
}

#[test]
fn digest_is_the_same_each_time() {
    assert_eq!(hash_text("Alice <alice@example.com>"), hash_text("Alice <alice@example.com>"));
    let owned = String::from("dep1");
    assert_eq!(hash_text(&owned), hash_text("dep1"));
}

#[test]
fn digests_of_different_texts_differ() {
    assert_ne!(hash_text("Alice"), hash_text("Bob"));
    assert_ne!(hash_text("dep1"), hash_text("dep2"));
    assert_ne!(hash_text("a"), hash_text("a "));
}

#[test]
fn digest_reads_the_utf8_bytes() {
    assert_ne!(hash_text("é"), hash_text("e"));
    assert_eq!(hash_text("é"), hash_text("\u{e9}"));
}
