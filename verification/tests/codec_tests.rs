use fclones::enhanced_cache::CacheEntry;
use fclones::semantic_hash::SemanticHash;
use fclones::store_codec::{key_is_encodable, parse_entry_text, render_entry_exec};

#[test]
fn entry_renders_to_the_expected_text() {
    let e = CacheEntry {
        semantic_hash: Some(SemanticHash {
            perceptual: Some(vec![1, 2]),
            content: 5,
        }),
        file_size: 10,
        modified: 20,
    };
    assert_eq!(
        render_entry_exec(&e),
        "{\"semantic_hash\":{\"perceptual\":[1,2],\"content\":5},\"file_size\":10,\"modified\":20}"
    );
}

#[test]
fn entry_without_fingerprint_renders_null() {
    let e = CacheEntry {
        semantic_hash: None,
        file_size: 0,
        modified: 18446744073709551615,
    };
    assert_eq!(
        render_entry_exec(&e),
        "{\"semantic_hash\":null,\"file_size\":0,\"modified\":18446744073709551615}"
    );
}

#[test]
fn entry_text_round_trips() {
    let e = CacheEntry {
        semantic_hash: Some(SemanticHash {
            perceptual: None,
            content: 123456789,
        }),
        file_size: 77,
        modified: 88,
    };
    let text = render_entry_exec(&e);
    assert_eq!(parse_entry_text(text.as_str()), Some(e));
}

#[test]
fn entry_text_with_trailing_junk_is_rejected() {
    let e = CacheEntry {
        semantic_hash: None,
        file_size: 1,
        modified: 2,
    };
    let mut text = render_entry_exec(&e);
    text.push(' ');
    assert_eq!(parse_entry_text(text.as_str()), None);
    assert_eq!(parse_entry_text("garbage"), None);
    assert_eq!(parse_entry_text(""), None);
}

#[test]
fn number_overflow_in_entry_text_is_rejected() {
    assert_eq!(
        parse_entry_text(
            "{\"semantic_hash\":null,\"file_size\":18446744073709551616,\"modified\":2}"
        ),
        None
    );
}

#[test]
fn key_encodability_rejects_quotes_only() {
    assert!(key_is_encodable("ordinary/path.jpg"));
    assert!(key_is_encodable("back\\slash"));
    assert!(!key_is_encodable("with\"quote"));
}
