use flavortown_tracker::diff::compute_diff;
use flavortown_tracker::item::{Prices, RawItem, ShopItem};
use flavortown_tracker::merge::{merge_scrapes, RegionScrape};
use flavortown_tracker::region::Region;

fn item(id: usize, title: &str, prices: Vec<(Region, u32)>) -> ShopItem {
    let mut p = Prices::new();
    for (r, v) in prices {
        p.set(r, v);
    }
    ShopItem {
        title: title.to_string(),
        description: String::new(),
        prices: p,
        image_url: "https://img.test/a.png".to_string(),
        image_id: id + 100,
        id,
    }
}

fn raw(id: usize, title: &str, price: u32) -> RawItem {
    RawItem {
        title: title.to_string(),
        description: format!("about {title}"),
        price,
        image_url: "https://img.test/a.png".to_string(),
        image_id: id + 100,
        id,
    }
}

#[test]
fn diff_of_identical_snapshots_is_empty() {
    let a = vec![
        item(1, "one", vec![(Region::UnitedStates, 10)]),
        item(2, "two", vec![(Region::Europe, 9)]),
    ];
    let b = vec![
        item(1, "one", vec![(Region::UnitedStates, 10)]),
        item(2, "two", vec![(Region::Europe, 9)]),
    ];
    let d = compute_diff(&a, &b);
    assert!(d.is_empty());
    assert_eq!(d.new_items.len(), 0);
    assert_eq!(d.deleted_items.len(), 0);
    assert_eq!(d.updated_items.len(), 0);
}

#[test]
fn added_price_region_classifies_as_changed() {
    let old_snap = vec![item(1, "one", vec![(Region::UnitedStates, 10)])];
    let new_snap = vec![item(1, "one", vec![(Region::UnitedStates, 10), (Region::Europe, 9)])];
    let d = compute_diff(&old_snap, &new_snap);
    assert_eq!(d.new_items.len(), 0);
    assert_eq!(d.deleted_items.len(), 0);
    assert_eq!(d.updated_items.len(), 1);
    let (before, after) = &d.updated_items[0];
    assert_eq!(before.id, 1);
    assert_eq!(after.id, 1);
    assert_eq!(before.prices.get(Region::Europe), None);
    assert_eq!(after.prices.get(Region::Europe), Some(9));
    assert!(!d.is_empty());
}

#[test]
fn disjoint_ids_classify_as_added_and_removed() {
    let old_snap = vec![
        item(1, "one", vec![(Region::UnitedStates, 1)]),
        item(2, "two", vec![(Region::UnitedStates, 2)]),
    ];
    let new_snap = vec![
        item(2, "two", vec![(Region::UnitedStates, 2)]),
        item(3, "three", vec![(Region::UnitedStates, 3)]),
    ];
    let d = compute_diff(&old_snap, &new_snap);
    assert_eq!(d.new_items.len(), 1);
    assert_eq!(d.new_items[0].id, 3);
    assert_eq!(d.deleted_items.len(), 1);
    assert_eq!(d.deleted_items[0].id, 1);
    assert_eq!(d.updated_items.len(), 0);
}

#[test]
fn added_under_swap_equals_removed() {
    let a = vec![
        item(1, "one", vec![(Region::UnitedStates, 1)]),
        item(2, "two", vec![(Region::UnitedStates, 2)]),
    ];
    let b = vec![
        item(2, "two", vec![(Region::UnitedStates, 2)]),
        item(4, "four", vec![(Region::UnitedStates, 4)]),
    ];
    let d_ab = compute_diff(&a, &b);
    let d_ba = compute_diff(&b, &a);
    let added_ids: Vec<usize> = d_ab.new_items.iter().map(|i| i.id).collect();
    let removed_ids: Vec<usize> = d_ba.deleted_items.iter().map(|i| i.id).collect();
    assert_eq!(added_ids, removed_ids);
    assert_eq!(added_ids, vec![4]);
}

#[test]
fn title_change_classifies_as_changed() {
    let old_snap = vec![item(1, "one", vec![(Region::UnitedStates, 10)])];
    let new_snap = vec![item(1, "uno", vec![(Region::UnitedStates, 10)])];
    let d = compute_diff(&old_snap, &new_snap);
    assert_eq!(d.updated_items.len(), 1);
    assert_eq!(d.updated_items[0].0.title, "one");
    assert_eq!(d.updated_items[0].1.title, "uno");
}

#[test]
fn merge_aggregates_prices_by_id() {
    let scrapes = vec![
        RegionScrape { region: Region::UnitedStates, items: vec![raw(1, "one", 10), raw(2, "two", 20)] },
        RegionScrape { region: Region::Europe, items: vec![raw(1, "eins", 9)] },
    ];
    let merged = merge_scrapes(&scrapes);
    assert_eq!(merged.len(), 2);
    assert_eq!(merged[0].id, 1);
    assert_eq!(merged[1].id, 2);
    // first region to introduce the id supplies the non-price fields
    assert_eq!(merged[0].title, "one");
    assert_eq!(merged[0].prices.get(Region::UnitedStates), Some(10));
    assert_eq!(merged[0].prices.get(Region::Europe), Some(9));
    assert_eq!(merged[1].prices.get(Region::UnitedStates), Some(20));
    assert_eq!(merged[1].prices.get(Region::Europe), None);
}

#[test]
fn merge_output_is_sorted_by_id() {
    let scrapes = vec![RegionScrape {
        region: Region::UnitedStates,
        items: vec![raw(5, "e", 5), raw(3, "c", 3), raw(4, "d", 4)],
    }];
    let merged = merge_scrapes(&scrapes);
    let ids: Vec<usize> = merged.iter().map(|i| i.id).collect();
    assert_eq!(ids, vec![3, 4, 5]);
}

#[test]
fn merge_same_region_later_occurrence_wins() {
    let scrapes = vec![RegionScrape {
        region: Region::UnitedStates,
        items: vec![raw(1, "one", 10), raw(1, "one again", 12)],
    }];
    let merged = merge_scrapes(&scrapes);
    assert_eq!(merged.len(), 1);
    assert_eq!(merged[0].prices.get(Region::UnitedStates), Some(12));
    // the first occurrence still supplies the non-price fields
    assert_eq!(merged[0].title, "one");
}

#[test]
fn merge_region_order_does_not_change_price_maps() {
    let order_a = vec![
        RegionScrape { region: Region::UnitedStates, items: vec![raw(1, "one", 10)] },
        RegionScrape { region: Region::Europe, items: vec![raw(1, "eins", 9), raw(2, "zwei", 7)] },
    ];
    let order_b = vec![
        RegionScrape { region: Region::Europe, items: vec![raw(1, "eins", 9), raw(2, "zwei", 7)] },
        RegionScrape { region: Region::UnitedStates, items: vec![raw(1, "one", 10)] },
    ];
    let m_a = merge_scrapes(&order_a);
    let m_b = merge_scrapes(&order_b);
    assert_eq!(m_a.len(), m_b.len());
    for (x, y) in m_a.iter().zip(m_b.iter()) {
        assert_eq!(x.id, y.id);
        assert!(x.prices.equals(&y.prices));
    }
}

#[test]
fn empty_scrapes_merge_to_empty_snapshot() {
    let merged = merge_scrapes(&Vec::new());
    assert_eq!(merged.len(), 0);
}
