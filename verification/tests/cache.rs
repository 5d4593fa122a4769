use pixelview::cache::{blob_name, evict_count, file_rel_path, is_stale, key};

#[test]
fn key_is_stable_and_hex() {
    assert_eq!(key("https://x/y"), key("https://x/y"));
    assert_ne!(key("a"), key("b"));
    assert_eq!(key("a").len(), 16);
    assert!(key("a").chars().all(|c| c.is_ascii_hexdigit() && !c.is_ascii_uppercase()));
}

#[test]
fn blob_and_file_names_use_the_key() {
    let k = key("u");
    assert_eq!(blob_name("u"), format!("{k}.bin"));
    assert_eq!(file_rel_path("u", "pack.zip"), format!("files/{k}/pack.zip"));
}

#[test]
fn staleness_follows_the_ttl() {
    assert!(!is_stale(None, 1000, 0));
    assert!(is_stale(Some(10), 100, 89));
    assert!(!is_stale(Some(10), 100, 90));
}

#[test]
fn eviction_drops_oldest_until_under_cap() {
    assert_eq!(evict_count(90, 100, &[50, 50]), 0);
    assert_eq!(evict_count(150, 100, &[20, 20, 20, 20]), 3);
    assert_eq!(evict_count(150, 100, &[60, 20]), 1);
    assert_eq!(evict_count(500, 100, &[60, 20]), 2);
}
