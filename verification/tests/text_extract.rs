use flavortown_tracker::diff::check_snapshot;
use flavortown_tracker::extract::{extract_item, parse_id, parse_price, CardFields, ExtractionError, Field};
use flavortown_tracker::item::{Prices, ShopItem};
use flavortown_tracker::region::{all_regions, check_region_selection, Region};
use flavortown_tracker::render::{
    buy_button, escape_markdown, format_prices, item_description, item_header, prices_changed,
    snapshot_filename, u64_to_string, updated_description, updated_price, updated_title,
    utc_timestamp_label,
};
use flavortown_tracker::urlext::ext_from_url;
use flavortown_tracker::{default_base_url, default_user_agent};

fn fields(
    title: Option<&str>,
    description: Option<&str>,
    price_text: Option<&str>,
    image_src: Option<&str>,
    id_attr: Option<&str>,
) -> CardFields {
    CardFields {
        title: title.map(|s| s.to_string()),
        description: description.map(|s| s.to_string()),
        price_text: price_text.map(|s| s.to_string()),
        image_src: image_src.map(|s| s.to_string()),
        id_attr: id_attr.map(|s| s.to_string()),
    }
}

#[test]
fn extraction_succeeds_on_a_complete_card() {
    let f = fields(
        Some("Widget"),
        Some("a widget"),
        Some("$1,234 shells"),
        Some("https://img.test/w.png"),
        Some("42"),
    );
    let raw = extract_item(f, 7).unwrap();
    assert_eq!(raw.title, "Widget");
    assert_eq!(raw.description, "a widget");
    assert_eq!(raw.price, 1234);
    assert_eq!(raw.image_url, "https://img.test/w.png");
    assert_eq!(raw.image_id, 7);
    assert_eq!(raw.id, 42);
}

#[test]
fn missing_price_element_names_the_price_selector() {
    let f = fields(Some("Widget"), Some("d"), None, Some("https://img.test/w.png"), Some("42"));
    let err = extract_item(f, 7).unwrap_err();
    assert_eq!(err, ExtractionError::MissingField(Field::PriceText));
    match err {
        ExtractionError::MissingField(field) => {
            assert_eq!(field.selector(), "span.shop-item-card__price");
        }
        _ => panic!("expected a missing-field failure"),
    }
}

#[test]
fn missing_title_is_reported_first() {
    let f = fields(None, None, None, None, None);
    assert_eq!(extract_item(f, 0).unwrap_err(), ExtractionError::MissingField(Field::Title));
}

#[test]
fn priceless_text_fails_with_invalid_price() {
    let f = fields(Some("t"), Some("d"), Some("free!"), Some("https://i.test/a.png"), Some("1"));
    assert_eq!(extract_item(f, 0).unwrap_err(), ExtractionError::InvalidPrice);
}

#[test]
fn non_decimal_id_fails_with_invalid_id() {
    let f = fields(Some("t"), Some("d"), Some("10"), Some("https://i.test/a.png"), Some("12a"));
    assert_eq!(extract_item(f, 0).unwrap_err(), ExtractionError::InvalidId);
}

#[test]
fn price_parsing_takes_digits_only() {
    assert_eq!(parse_price("$1,234"), Some(1234));
    assert_eq!(parse_price("10 shells"), Some(10));
    assert_eq!(parse_price("0"), Some(0));
    assert_eq!(parse_price("no digits"), None);
    assert_eq!(parse_price(""), None);
    assert_eq!(parse_price("4294967295"), Some(u32::MAX));
    assert_eq!(parse_price("4294967296"), None);
}

#[test]
fn id_parsing_is_strict_decimal() {
    assert_eq!(parse_id("42"), Some(42));
    assert_eq!(parse_id("0"), Some(0));
    assert_eq!(parse_id(""), None);
    assert_eq!(parse_id("4 2"), None);
    assert_eq!(parse_id("-1"), None);
}

#[test]
fn extension_comes_from_the_final_path_segment() {
    assert_eq!(ext_from_url("https://h.test/a/b/c.png"), Some("png".to_string()));
    assert_eq!(ext_from_url("https://h.test/a/b/c.png?sig=123#frag"), Some("png".to_string()));
    assert_eq!(ext_from_url("https://h.test/archive.tar.gz"), Some("gz".to_string()));
    assert_eq!(ext_from_url("https://h.test/a/b/plain"), None);
    assert_eq!(ext_from_url("https://h.test/"), None);
    assert_eq!(ext_from_url("https://h.test"), None);
    assert_eq!(ext_from_url("https://h.test/a/.hidden"), None);
    assert_eq!(ext_from_url("https://h.test/a/file."), Some(String::new()));
}

#[test]
fn region_codes_and_labels_are_fixed() {
    assert_eq!(Region::UnitedStates.code(), "US");
    assert_eq!(Region::Europe.code(), "EU");
    assert_eq!(Region::UnitedKingdom.code(), "UK");
    assert_eq!(Region::India.code(), "IN");
    assert_eq!(Region::Canada.code(), "CA");
    assert_eq!(Region::Australia.code(), "AU");
    assert_eq!(Region::Global.code(), "XX");
    assert_eq!(Region::UnitedStates.label(), "United States");
    assert_eq!(Region::Global.label(), "Rest of World");
}

#[test]
fn regions_enumerate_in_fixed_order() {
    let rs = all_regions();
    assert_eq!(
        rs,
        vec![
            Region::UnitedStates,
            Region::Europe,
            Region::UnitedKingdom,
            Region::India,
            Region::Canada,
            Region::Australia,
            Region::Global,
        ]
    );
}

#[test]
fn region_selection_check_compares_labels() {
    assert!(check_region_selection("EU", Region::Europe).is_ok());
    let err = check_region_selection("United States", Region::Europe).unwrap_err();
    assert_eq!(err.expected, "EU");
    assert_eq!(err.found, "United States");
}

#[test]
fn decimal_formatting_is_exact() {
    assert_eq!(u64_to_string(0), "0");
    assert_eq!(u64_to_string(7), "7");
    assert_eq!(u64_to_string(1234), "1234");
    assert_eq!(u64_to_string(1000000), "1000000");
}

#[test]
fn markdown_markers_are_escaped() {
    assert_eq!(escape_markdown("a_b*c~d`e"), "a\\_b\\*c\\~d\\`e");
    assert_eq!(escape_markdown("plain"), "plain");
    assert_eq!(escape_markdown(""), "");
}

#[test]
fn single_price_renders_with_its_region_label() {
    let mut p = Prices::new();
    p.set(Region::UnitedStates, 10);
    assert_eq!(format_prices(&p), "10 (United States)");
}

#[test]
fn uniform_prices_render_as_rest_of_world() {
    let mut p = Prices::new();
    for r in all_regions() {
        p.set(r, 5);
    }
    assert_eq!(format_prices(&p), "5 (Rest of World)");
}

#[test]
fn mixed_prices_render_in_enumeration_order() {
    let mut p = Prices::new();
    p.set(Region::Europe, 9);
    p.set(Region::UnitedStates, 10);
    assert_eq!(format_prices(&p), "United States 10, EU 9");
}

#[test]
fn price_change_detection_compares_whole_maps() {
    let mut a = Prices::new();
    a.set(Region::UnitedStates, 10);
    let mut b = Prices::new();
    b.set(Region::UnitedStates, 10);
    assert!(!prices_changed(&a, &b));
    b.set(Region::Europe, 9);
    assert!(prices_changed(&a, &b));
}

#[test]
fn notification_text_blocks_are_assembled_exactly() {
    let mut p = Prices::new();
    p.set(Region::UnitedStates, 10);
    let it = ShopItem {
        title: "Widget".to_string(),
        description: "neat_thing".to_string(),
        prices: p,
        image_url: "https://img.test/w.png".to_string(),
        image_id: 7,
        id: 42,
    };
    assert_eq!(item_header(":new:", &it), ":new: Widget (:shells: 10 (United States))");
    assert_eq!(item_description(""), "");
    assert_eq!(item_description(&it.description), "_neat\\_thing_\n");
    assert_eq!(
        buy_button("https://s.test/shop/order?shop_item_id=42"),
        "<https://s.test/shop/order?shop_item_id=42|*:tw_shopping_trolley: Buy*>"
    );
    assert_eq!(
        it.buy_link("https://flavortown.hackclub.com/"),
        "https://flavortown.hackclub.com/shop/order?shop_item_id=42"
    );
}

#[test]
fn updated_item_lines_show_old_and_new_only_on_change() {
    let mut p1 = Prices::new();
    p1.set(Region::UnitedStates, 10);
    let mut p2 = Prices::new();
    p2.set(Region::UnitedStates, 12);
    let a = ShopItem {
        title: "Widget".to_string(),
        description: String::new(),
        prices: p1,
        image_url: "https://img.test/w.png".to_string(),
        image_id: 7,
        id: 42,
    };
    let b = ShopItem {
        title: "Gadget".to_string(),
        description: "now better".to_string(),
        prices: p2,
        image_url: "https://img.test/w.png".to_string(),
        image_id: 7,
        id: 42,
    };
    assert_eq!(updated_title(&a, &b), "Widget → Gadget");
    assert_eq!(updated_title(&a, &a), "Widget");
    assert_eq!(updated_price(&a, &b), "10 (United States) → 12 (United States)");
    assert_eq!(updated_price(&a, &a), "10 (United States)");
    assert_eq!(updated_description("", ""), "");
    assert_eq!(updated_description("same", "same"), "_same_\n");
    assert_eq!(updated_description("", "now better"), "_no description_ → now better\n");
    assert_eq!(updated_description("old_text", "new"), "old\\_text → new\n");
}

#[test]
fn snapshot_filenames_carry_the_timestamp() {
    assert_eq!(snapshot_filename("2025-01-02-03:04:05"), "snap_2025-01-02-03:04:05.json");
}

#[test]
fn timestamp_labels_are_utc_calendar_dates() {
    assert_eq!(utc_timestamp_label(0), "1970-01-01-00:00:00");
    assert_eq!(utc_timestamp_label(946_684_799), "1999-12-31-23:59:59");
    assert_eq!(utc_timestamp_label(951_827_696), "2000-02-29-12:34:56");
}

#[test]
fn snapshot_validity_is_checked_exactly() {
    let good = vec![
        snap_item(1, Some(10)),
        snap_item(2, Some(20)),
    ];
    assert!(check_snapshot(&good));
    let unsorted = vec![snap_item(2, Some(20)), snap_item(1, Some(10))];
    assert!(!check_snapshot(&unsorted));
    let duplicate = vec![snap_item(1, Some(10)), snap_item(1, Some(20))];
    assert!(!check_snapshot(&duplicate));
    let priceless = vec![snap_item(1, None)];
    assert!(!check_snapshot(&priceless));
    assert!(check_snapshot(&Vec::new()));
}

fn snap_item(id: usize, price: Option<u32>) -> ShopItem {
    let mut p = Prices::new();
    if let Some(v) = price {
        p.set(Region::UnitedStates, v);
    }
    ShopItem {
        title: "t".to_string(),
        description: String::new(),
        prices: p,
        image_url: "https://img.test/a.png".to_string(),
        image_id: id,
        id,
    }
}

#[test]
fn defaults_are_fixed_strings() {
    assert!(default_user_agent().starts_with("Mozilla/5.0"));
    assert_eq!(default_base_url(), "https://flavortown.hackclub.com/");
}
