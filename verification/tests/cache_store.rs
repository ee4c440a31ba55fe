use flavortown_tracker::cache::{CacheError, UploadCache};
use flavortown_tracker::item::{Prices, ShopItem};

const COOKIE: &str = "session=SECRET-REDACTED";
const UA: &str = "tracker-tests/1.0";

fn cache() -> UploadCache {
    UploadCache::open_temporary(COOKIE, UA).expect("temporary store should open")
}

fn item(id: usize, image_id: usize, image_url: &str) -> ShopItem {
    let mut p = Prices::new();
    p.set(flavortown_tracker::region::Region::UnitedStates, 10);
    ShopItem {
        title: "thing".to_string(),
        description: String::new(),
        prices: p,
        image_url: image_url.to_string(),
        image_id,
        id,
    }
}

#[test]
fn recorded_identity_resolves_from_store_with_no_remote_call() {
    // This test runs without any network access: a resolve for a recorded
    // identity must be answered from the persistent store alone.
    let mut c = cache();
    c.record(5, "https://cdn.test/mirrored.png").unwrap();
    let url = c.resolve(5, "https://src.test/whatever.png").unwrap();
    assert_eq!(url, "https://cdn.test/mirrored.png");
    // and again: still a pure read
    let url2 = c.resolve(5, "https://src.test/whatever.png").unwrap();
    assert_eq!(url2, "https://cdn.test/mirrored.png");
}

#[test]
fn fresh_coordination_same_store_needs_no_upload() {
    // The in-process coordination state is empty right after opening; a store
    // that already holds the identity answers the resolve by itself.
    let mut c = cache();
    c.record(9, "https://cdn.test/nine.gif").unwrap();
    c.flush().unwrap();
    assert_eq!(c.lookup(9).unwrap(), Some("https://cdn.test/nine.gif".to_string()));
    assert_eq!(c.resolve(9, "https://src.test/nine.gif").unwrap(), "https://cdn.test/nine.gif");
}

#[test]
fn miss_without_network_fails_with_transport_and_writes_nothing() {
    let mut c = cache();
    let r = c.resolve(7, "https://src.invalid/a.png");
    assert_eq!(r, Err(CacheError::Transport));
    assert_eq!(c.lookup(7).unwrap(), None);
}

#[test]
fn lookup_misses_on_empty_store() {
    let c = cache();
    assert_eq!(c.lookup(1).unwrap(), None);
}

#[test]
fn entries_are_not_lost_on_overwrite_free_writes() {
    let mut c = cache();
    c.record(1, "https://cdn.test/a.png").unwrap();
    c.record(2, "https://cdn.test/b.png").unwrap();
    assert_eq!(c.lookup(1).unwrap(), Some("https://cdn.test/a.png".to_string()));
    assert_eq!(c.lookup(2).unwrap(), Some("https://cdn.test/b.png".to_string()));
}

#[test]
fn resolve_all_replaces_image_urls_from_store() {
    let mut c = cache();
    c.record(101, "https://cdn.test/one.png").unwrap();
    c.record(102, "https://cdn.test/two.png").unwrap();
    let mut items = vec![
        item(1, 101, "https://src.test/one.png"),
        item(2, 102, "https://src.test/two.png"),
    ];
    c.resolve_all(&mut items).unwrap();
    assert_eq!(items.len(), 2);
    assert_eq!(items[0].image_url, "https://cdn.test/one.png");
    assert_eq!(items[1].image_url, "https://cdn.test/two.png");
    // everything but the image URL is untouched
    assert_eq!(items[0].id, 1);
    assert_eq!(items[0].title, "thing");
    assert_eq!(items[0].image_id, 101);
}

#[test]
fn resolve_all_aborts_on_first_unresolvable_image() {
    let mut c = cache();
    c.record(101, "https://cdn.test/one.png").unwrap();
    let mut items = vec![
        item(1, 101, "https://src.test/one.png"),
        item(2, 999, "https://src.invalid/two.png"),
    ];
    let r = c.resolve_all(&mut items);
    assert_eq!(r, Err(CacheError::Transport));
    // the resolved prefix is in place, the failing item untouched
    assert_eq!(items[0].image_url, "https://cdn.test/one.png");
    assert_eq!(items[1].image_url, "https://src.invalid/two.png");
}
