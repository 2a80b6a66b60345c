use media_catalog::data::tag_category::Category;
use media_catalog::database::connection::{DatabaseConnection, DatabaseLocation};
use media_catalog::database::store::Store;
use media_catalog::tags::category::{tag_categories, Error, TagCategories, UpdateTagCategory};

fn categories() -> TagCategories {
    tag_categories(DatabaseConnection::new(DatabaseLocation::URL(":memory:"), false).unwrap())
}

fn category(name: &str, color: &str, description: &str) -> Category {
    Category {
        id: 0,
        name: name.to_string(),
        color: color.to_string(),
        description: description.to_string(),
    }
}

fn seeded() -> Store {
    let mut store = Store::new();
    assert_eq!(store.insert_category(category("People", "#ff0000", "who is shown")), Ok(1));
    assert_eq!(store.insert_category(category("Places", "#00ff00", "")), Ok(2));
    assert_eq!(store.insert_category(category("peOple again", "#0000ff", "")), Ok(3));
    assert_eq!(store.insert_category(category("\u{c9}t\u{e9}", "#0000ff", "")), Ok(4));
    store
}

#[test]
fn category_get_tells_invalid_from_missing() {
    let registry = categories();
    let store = seeded();
    assert_eq!(registry.get(&store, 0).unwrap_err(), Error::InvalidID);
    assert_eq!(registry.get(&store, -1).unwrap_err(), Error::InvalidID);
    assert_eq!(registry.get(&store, 5).unwrap_err(), Error::NotFound);
    let found = registry.get(&store, 2).unwrap();
    assert_eq!(found.id, 2);
    assert_eq!(found.name, "Places");
    assert_eq!(found.color, "#00ff00");
}

#[test]
fn update_without_fields_changes_nothing() {
    let registry = categories();
    let mut store = seeded();
    registry.update(&mut store, 1, UpdateTagCategory::default()).unwrap();
    let row = registry.get(&store, 1).unwrap();
    assert_eq!(row.name, "People");
    assert_eq!(row.color, "#ff0000");
    assert_eq!(row.description, "who is shown");
    assert_eq!(store.categories.len(), 4);
}

#[test]
fn update_changes_only_the_given_fields() {
    let registry = categories();
    let mut store = seeded();
    let patch = UpdateTagCategory { name: None, color: Some("#ABCDEF"), description: None };
    registry.update(&mut store, 1, patch).unwrap();
    let row = registry.get(&store, 1).unwrap();
    assert_eq!(row.name, "People");
    assert_eq!(row.color, "#abcdef");
    assert_eq!(row.description, "who is shown");
    let patch = UpdateTagCategory { name: Some("  Persons "), color: None, description: Some(" x ") };
    registry.update(&mut store, 1, patch).unwrap();
    let row = registry.get(&store, 1).unwrap();
    assert_eq!(row.name, "Persons");
    assert_eq!(row.color, "#abcdef");
    assert_eq!(row.description, "x");
    assert_eq!(registry.get(&store, 2).unwrap().name, "Places");
}

#[test]
fn update_checks_the_merged_category() {
    let registry = categories();
    let mut store = Store::new();
    store.insert_category(category("Old", "not a colour", "")).unwrap();
    let rename = UpdateTagCategory { name: Some("New"), color: None, description: None };
    assert_eq!(registry.update(&mut store, 1, rename).unwrap_err(), Error::InvalidColor);
    assert_eq!(registry.get(&store, 1).unwrap().name, "Old");
    let both = UpdateTagCategory { name: Some("New"), color: Some("#123456"), description: None };
    registry.update(&mut store, 1, both).unwrap();
    assert_eq!(registry.get(&store, 1).unwrap().name, "New");
}

#[test]
fn update_rejects_in_order() {
    let registry = categories();
    let mut store = seeded();
    let long_name = "n".repeat(51);
    let long_text = "d".repeat(301);
    let patch = UpdateTagCategory { name: Some("   "), color: Some("red"), description: Some(&long_text) };
    assert_eq!(registry.update(&mut store, 1, patch).unwrap_err(), Error::InvalidName);
    let patch = UpdateTagCategory { name: Some(&long_name), color: Some("red"), description: Some(&long_text) };
    assert_eq!(registry.update(&mut store, 1, patch).unwrap_err(), Error::NameTooLong);
    let patch = UpdateTagCategory { name: None, color: Some("red"), description: Some(&long_text) };
    assert_eq!(registry.update(&mut store, 1, patch).unwrap_err(), Error::DescriptionTooLong);
    let patch = UpdateTagCategory { name: None, color: Some("red"), description: None };
    assert_eq!(registry.update(&mut store, 1, patch).unwrap_err(), Error::InvalidColor);
    let patch = UpdateTagCategory { name: None, color: Some("ff0000"), description: None };
    assert_eq!(registry.update(&mut store, 1, patch).unwrap_err(), Error::InvalidColor);
    let patch = UpdateTagCategory { name: None, color: Some("#\u{e9}\u{e9}\u{e9}"), description: None };
    assert_eq!(registry.update(&mut store, 1, patch).unwrap_err(), Error::InvalidColor);
    assert_eq!(registry.update(&mut store, 0, UpdateTagCategory::default()).unwrap_err(), Error::InvalidID);
    assert_eq!(registry.update(&mut store, 9, UpdateTagCategory::default()).unwrap_err(), Error::NotFound);
    let row = registry.get(&store, 1).unwrap();
    assert_eq!(row.name, "People");
    assert_eq!(row.color, "#ff0000");
}

#[test]
fn category_limits_are_measured_in_grapheme_clusters() {
    let registry = categories();
    let mut store = seeded();
    let name = "e\u{301}".repeat(50);
    let text = "e\u{301}".repeat(300);
    let patch = UpdateTagCategory { name: Some(&name), color: None, description: Some(&text) };
    registry.update(&mut store, 1, patch).unwrap();
    assert_eq!(registry.get(&store, 1).unwrap().name.chars().count(), 100);
}

#[test]
fn category_search_needs_three_grapheme_clusters() {
    let registry = categories();
    let store = seeded();
    assert_eq!(registry.search_by_name(&store, "ab").unwrap_err(), Error::NameToSearchTooShort);
    assert_eq!(registry.search_by_name(&store, "").unwrap_err(), Error::NameToSearchTooShort);
    assert_eq!(
        registry.search_by_name(&store, "e\u{301}e\u{301}").unwrap_err(),
        Error::NameToSearchTooShort
    );
    assert!(registry.search_by_name(&store, "abc").unwrap().is_empty());
}

#[test]
fn category_search_matches_prefixes_whatever_the_case() {
    let registry = categories();
    let store = seeded();
    let found: Vec<i32> =
        registry.search_by_name(&store, "PEO").unwrap().iter().map(|row| row.id).collect();
    assert_eq!(found, vec![1, 3]);
    let found: Vec<i32> =
        registry.search_by_name(&store, "people ").unwrap().iter().map(|row| row.id).collect();
    assert_eq!(found, vec![3]);
    let found: Vec<i32> =
        registry.search_by_name(&store, "\u{e9}T\u{c9}").unwrap().iter().map(|row| row.id).collect();
    assert_eq!(found, vec![4]);
    assert!(registry.search_by_name(&store, "eop").unwrap().is_empty());
}

#[test]
fn category_list_filters_by_identifier() {
    let registry = categories();
    let store = seeded();
    let all: Vec<i32> = registry.list(&store, None).unwrap().iter().map(|row| row.id).collect();
    assert_eq!(all, vec![1, 2, 3, 4]);
    let all: Vec<i32> = registry.list(&store, Some(vec![])).unwrap().iter().map(|row| row.id).collect();
    assert_eq!(all, vec![1, 2, 3, 4]);
    let some: Vec<i32> =
        registry.list(&store, Some(vec![4, 2, 8])).unwrap().iter().map(|row| row.id).collect();
    assert_eq!(some, vec![2, 4]);
}

#[test]
fn category_delete_does_not_look_at_tags() {
    let registry = categories();
    let mut store = seeded();
    store
        .insert_tag(media_catalog::data::tag::Tag {
            id: 0,
            name: "anna".to_string(),
            category_id: 1,
            description: String::new(),
        })
        .unwrap();
    registry.delete(&mut store, 1).unwrap();
    assert_eq!(registry.get(&store, 1).unwrap_err(), Error::NotFound);
    assert_eq!(store.tags.len(), 1);
    assert_eq!(registry.delete(&mut store, 1).unwrap_err(), Error::NotFound);
    assert_eq!(registry.delete(&mut store, 0).unwrap_err(), Error::InvalidID);
}
