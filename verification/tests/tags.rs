use media_catalog::data::tag::Tag;
use media_catalog::data::tag_category::Category;
use media_catalog::database::connection::{DatabaseConnection, DatabaseLocation};
use media_catalog::database::store::{Store, StoreError};
use media_catalog::tags::tags::{sorted_by_name, tags, CreateTag, Error, Tags, UpdateTag};

fn registry() -> Tags {
    tags(DatabaseConnection::new(DatabaseLocation::URL(":memory:"), false).unwrap())
}

fn seeded() -> Store {
    let mut store = Store::new();
    for name in ["People", "Places"] {
        store
            .insert_category(Category {
                id: 0,
                name: name.to_string(),
                color: "#ffffff".to_string(),
                description: String::new(),
            })
            .unwrap();
    }
    store
}

fn request(name: &str, category_id: i32, description: &str) -> CreateTag {
    CreateTag { name: name.to_string(), category_id, description: description.to_string() }
}

fn names(rows: &[Tag]) -> Vec<String> {
    rows.iter().map(|row| row.name.clone()).collect()
}

#[test]
fn tag_create_stores_the_trimmed_tag_and_get_finds_it() {
    let registry = registry();
    let mut store = seeded();
    let created = registry.create(&mut store, request("  anna ", 1, " my sister\n")).unwrap();
    assert_eq!(created.id, 1);
    assert_eq!(created.name, "anna");
    assert_eq!(created.category_id, 1);
    assert_eq!(created.description, "my sister");
    let found = registry.get(&store, created.id).unwrap();
    assert_eq!(found.id, 1);
    assert_eq!(found.name, "anna");
    assert_eq!(found.category_id, 1);
    assert_eq!(found.description, "my sister");
}

#[test]
fn same_tag_twice_is_refused_and_changes_nothing() {
    let registry = registry();
    let mut store = seeded();
    registry.create(&mut store, request("anna", 1, "first")).unwrap();
    let again = registry.create(&mut store, request(" anna ", 1, "second"));
    assert_eq!(again.unwrap_err(), Error::AlreadyExists);
    assert_eq!(store.tags.len(), 1);
    assert_eq!(store.tags[0].description, "first");
    assert!(registry.create(&mut store, request("anna", 2, "")).is_ok());
    assert!(registry.create(&mut store, request("Anna", 1, "")).is_ok());
}

#[test]
fn tag_create_rejects_in_order() {
    let registry = registry();
    let mut store = seeded();
    let long_name = "n".repeat(51);
    let long_text = "d".repeat(301);
    assert_eq!(registry.create(&mut store, request("", 0, &long_text)).unwrap_err(), Error::InvalidCategoryID);
    assert_eq!(registry.create(&mut store, request("", -3, "")).unwrap_err(), Error::InvalidCategoryID);
    assert_eq!(registry.create(&mut store, request("", 7, &long_text)).unwrap_err(), Error::CategoryNotFound);
    assert_eq!(registry.create(&mut store, request("  ", 1, &long_text)).unwrap_err(), Error::InvalidName);
    assert_eq!(registry.create(&mut store, request(&long_name, 1, &long_text)).unwrap_err(), Error::NameTooLong);
    assert_eq!(registry.create(&mut store, request("x", 1, &long_text)).unwrap_err(), Error::DescriptionTooLong);
    assert_eq!(store.tags.len(), 0);
    let name = format!(" {} ", "n".repeat(50));
    let text = format!(" {} ", "d".repeat(300));
    assert!(registry.create(&mut store, request(&name, 1, &text)).is_ok());
}

#[test]
fn tag_limits_are_measured_in_characters() {
    let registry = registry();
    let mut store = seeded();
    let clusters = "e\u{301}".repeat(26);
    assert_eq!(registry.create(&mut store, request(&clusters, 1, "")).unwrap_err(), Error::NameTooLong);
    let fits = "\u{e9}".repeat(50);
    assert!(registry.create(&mut store, request(&fits, 1, "")).is_ok());
}

#[test]
fn tag_get_tells_invalid_from_missing() {
    let registry = registry();
    let store = seeded();
    assert_eq!(registry.get(&store, 0).unwrap_err(), Error::InvalidID);
    assert_eq!(registry.get(&store, 1).unwrap_err(), Error::NotFound);
}

#[test]
fn tag_update_changes_only_the_given_fields() {
    let registry = registry();
    let mut store = seeded();
    registry.create(&mut store, request("anna", 1, "my sister")).unwrap();
    let patch = UpdateTag { name: Some(" berlin "), category_id: Some(2), description: None };
    registry.update(&mut store, 1, patch).unwrap();
    let row = registry.get(&store, 1).unwrap();
    assert_eq!(row.name, "berlin");
    assert_eq!(row.category_id, 2);
    assert_eq!(row.description, "my sister");
    let patch = UpdateTag { name: Some("paris"), category_id: None, description: Some(" city ") };
    registry.update(&mut store, 1, patch).unwrap();
    let row = registry.get(&store, 1).unwrap();
    assert_eq!(row.name, "paris");
    assert_eq!(row.category_id, 2);
    assert_eq!(row.description, "city");
}

#[test]
fn tag_update_without_fields_leaves_the_tag_as_it_is() {
    let registry = registry();
    let mut store = seeded();
    registry.create(&mut store, request("anna", 1, "my sister")).unwrap();
    registry.create(&mut store, request("bob", 1, "")).unwrap();
    registry.update(&mut store, 1, UpdateTag::default()).unwrap();
    let row = registry.get(&store, 1).unwrap();
    assert_eq!(row.id, 1);
    assert_eq!(row.name, "anna");
    assert_eq!(row.category_id, 1);
    assert_eq!(row.description, "my sister");
    assert_eq!(store.tags.len(), 2);
    assert_eq!(registry.get(&store, 2).unwrap().name, "bob");
}

#[test]
fn tag_update_of_the_description_alone_changes_only_it() {
    let registry = registry();
    let mut store = seeded();
    registry.create(&mut store, request("anna", 1, "my sister")).unwrap();
    registry.create(&mut store, request("bob", 1, "my brother")).unwrap();
    let patch = UpdateTag { name: None, category_id: None, description: Some("  the elder one ") };
    registry.update(&mut store, 1, patch).unwrap();
    let row = registry.get(&store, 1).unwrap();
    assert_eq!(row.name, "anna");
    assert_eq!(row.category_id, 1);
    assert_eq!(row.description, "the elder one");
    let other = registry.get(&store, 2).unwrap();
    assert_eq!(other.name, "bob");
    assert_eq!(other.description, "my brother");
}

#[test]
fn tag_update_to_its_own_name_is_no_collision() {
    let registry = registry();
    let mut store = seeded();
    registry.create(&mut store, request("anna", 1, "")).unwrap();
    registry.create(&mut store, request("bob", 1, "")).unwrap();
    let same = UpdateTag { name: Some(" anna "), category_id: Some(1), description: None };
    registry.update(&mut store, 1, same).unwrap();
    assert_eq!(registry.get(&store, 1).unwrap().name, "anna");
    let taken = UpdateTag { name: Some("bob"), category_id: None, description: None };
    assert_eq!(registry.update(&mut store, 1, taken).unwrap_err(), Error::AlreadyExists);
    assert_eq!(registry.get(&store, 1).unwrap().name, "anna");
}

#[test]
fn tag_update_checks_the_merged_tag() {
    let registry = registry();
    let mut store = seeded();
    registry.create(&mut store, request("anna", 1, "")).unwrap();
    registry.create(&mut store, request("anna", 2, "")).unwrap();
    let moved = UpdateTag { name: None, category_id: Some(2), description: None };
    assert_eq!(registry.update(&mut store, 1, moved).unwrap_err(), Error::AlreadyExists);
    let nowhere = UpdateTag { name: Some(""), category_id: Some(9), description: None };
    assert_eq!(registry.update(&mut store, 1, nowhere).unwrap_err(), Error::CategoryNotFound);
    let invalid = UpdateTag { name: Some(""), category_id: Some(0), description: None };
    assert_eq!(registry.update(&mut store, 1, invalid).unwrap_err(), Error::InvalidCategoryID);
    let unnamed = UpdateTag { name: Some(" "), category_id: None, description: None };
    assert_eq!(registry.update(&mut store, 1, unnamed).unwrap_err(), Error::InvalidName);
    let long_name = "n".repeat(51);
    let long = UpdateTag { name: Some(&long_name), category_id: None, description: None };
    assert_eq!(registry.update(&mut store, 1, long).unwrap_err(), Error::NameTooLong);
    let long_text = "d".repeat(301);
    let wordy = UpdateTag { name: Some("bob"), category_id: None, description: Some(&long_text) };
    assert_eq!(registry.update(&mut store, 1, wordy).unwrap_err(), Error::DescriptionTooLong);
    assert_eq!(registry.update(&mut store, 0, UpdateTag::default()).unwrap_err(), Error::InvalidID);
    assert_eq!(registry.update(&mut store, 9, UpdateTag::default()).unwrap_err(), Error::NotFound);
    assert_eq!(registry.get(&store, 1).unwrap().name, "anna");
    assert_eq!(registry.get(&store, 1).unwrap().category_id, 1);
}

#[test]
fn tag_list_is_in_order_of_names() {
    let registry = registry();
    let mut store = seeded();
    for (name, category) in [("zoe", 1), ("anna", 1), ("Berlin", 2), ("mia", 1), ("anna", 2), ("a", 1)] {
        registry.create(&mut store, request(name, category, "")).unwrap();
    }
    let all = registry.list(&store, None).unwrap();
    assert_eq!(names(&all), vec!["Berlin", "a", "anna", "anna", "mia", "zoe"]);
    let people = registry.list(&store, Some(1)).unwrap();
    assert_eq!(names(&people), vec!["a", "anna", "mia", "zoe"]);
    assert!(people.iter().all(|row| row.category_id == 1));
    let places = registry.list(&store, Some(2)).unwrap();
    assert_eq!(names(&places), vec!["Berlin", "anna"]);
}

#[test]
fn tag_list_checks_the_category() {
    let registry = registry();
    let store = seeded();
    assert_eq!(registry.list(&store, Some(0)).unwrap_err(), Error::InvalidCategoryID);
    assert_eq!(registry.list(&store, Some(3)).unwrap_err(), Error::CategoryNotFound);
    assert!(registry.list(&store, Some(1)).unwrap().is_empty());
    assert!(registry.list(&store, None).unwrap().is_empty());
}

#[test]
fn sorting_keeps_every_tag() {
    let rows: Vec<Tag> = ["b", "a", "b", "", "ab"]
        .iter()
        .enumerate()
        .map(|(i, name)| Tag {
            id: i as i32 + 1,
            name: name.to_string(),
            category_id: 1,
            description: String::new(),
        })
        .collect();
    let sorted = sorted_by_name(rows);
    assert_eq!(names(&sorted), vec!["", "a", "ab", "b", "b"]);
    let mut ids: Vec<i32> = sorted.iter().map(|row| row.id).collect();
    ids.sort();
    assert_eq!(ids, vec![1, 2, 3, 4, 5]);
}

#[test]
fn tag_search_needs_three_grapheme_clusters() {
    let registry = registry();
    let mut store = seeded();
    registry.create(&mut store, request("abc", 1, "")).unwrap();
    assert_eq!(registry.search_by_name(&store, "ab").unwrap_err(), Error::InvalidName);
    assert_eq!(registry.search_by_name(&store, "  ab  ").unwrap_err(), Error::InvalidName);
    assert_eq!(registry.search_by_name(&store, "").unwrap_err(), Error::InvalidName);
    assert_eq!(names(&registry.search_by_name(&store, "abc").unwrap()), vec!["abc"]);
}

#[test]
fn tag_search_matches_prefixes_whatever_the_ascii_case() {
    let registry = registry();
    let mut store = seeded();
    for name in ["abcd", "ABC", "xabc", "abC trip", "ab", "\u{c9}t\u{e9}"] {
        registry.create(&mut store, request(name, 1, "")).unwrap();
    }
    let found = registry.search_by_name(&store, " aBc ").unwrap();
    assert_eq!(names(&found), vec!["ABC", "abC trip", "abcd"]);
    let found = registry.search_by_name(&store, "\u{c9}T\u{e9}").unwrap();
    assert_eq!(names(&found), vec!["\u{c9}t\u{e9}"]);
    assert!(registry.search_by_name(&store, "\u{e9}t\u{e9}").unwrap().is_empty());
}

#[test]
fn tag_delete_removes_the_tag() {
    let registry = registry();
    let mut store = seeded();
    registry.create(&mut store, request("anna", 1, "")).unwrap();
    registry.create(&mut store, request("bob", 1, "")).unwrap();
    registry.delete(&mut store, 1).unwrap();
    assert_eq!(registry.get(&store, 1).unwrap_err(), Error::NotFound);
    assert_eq!(registry.get(&store, 2).unwrap().name, "bob");
    assert_eq!(registry.delete(&mut store, 1).unwrap_err(), Error::NotFound);
    assert_eq!(registry.delete(&mut store, 0).unwrap_err(), Error::InvalidID);
}

#[test]
fn last_tag_identifier_exhausts_the_table() {
    let registry = registry();
    let mut store = seeded();
    store.tags.push(Tag {
        id: i32::MAX,
        name: "last".to_string(),
        category_id: 1,
        description: String::new(),
    });
    assert_eq!(
        registry.create(&mut store, request("next", 1, "")).unwrap_err(),
        Error::DatabaseError(StoreError::Exhausted)
    );
}
