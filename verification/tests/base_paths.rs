use media_catalog::data::base_path::BasePath;
use media_catalog::data::media_file::{KiloBytes, MediaType};
use media_catalog::database::connection::{DatabaseConnection, DatabaseLocation};
use media_catalog::database::store::{Store, StoreError};
use media_catalog::media::base_paths::{base_paths, BasePaths, Error, NewBasePath, PathStatus};
use media_catalog::media::media::{media, CreateMediaFile};

fn registry() -> BasePaths {
    base_paths(DatabaseConnection::new(DatabaseLocation::URL(":memory:"), false).unwrap())
}

fn directory() -> PathStatus {
    PathStatus { exists: true, is_directory: true, is_absolute: true }
}

fn file_under(base_path_id: i32, relative_path: &str) -> CreateMediaFile {
    CreateMediaFile {
        relative_path: relative_path.to_string(),
        base_path_id,
        width: None,
        height: None,
        size: KiloBytes { bits: 12.5f64.to_bits() },
        mark: None,
        description: String::new(),
        media_type: MediaType::Image,
    }
}

#[test]
fn create_stores_the_normalized_path_and_get_finds_it() {
    let paths = registry();
    let mut store = Store::new();
    let created = paths.create(&mut store, "  /a/b//  ", "\tholiday pictures \n", directory()).unwrap();
    assert_eq!(created.id, 1);
    assert_eq!(created.base_path, "/a/b");
    assert_eq!(created.description, "holiday pictures");
    let found = paths.get(&store, created.id).unwrap();
    assert_eq!(found.id, 1);
    assert_eq!(found.base_path, "/a/b");
    assert_eq!(found.description, "holiday pictures");
}

#[test]
fn identifiers_ascend_from_one() {
    let paths = registry();
    let mut store = Store::new();
    assert_eq!(paths.create(&mut store, "/a", "", directory()).unwrap().id, 1);
    assert_eq!(paths.create(&mut store, "/b", "", directory()).unwrap().id, 2);
    assert_eq!(paths.create(&mut store, "/c", "", directory()).unwrap().id, 3);
    paths.delete(&mut store, 2).unwrap();
    assert_eq!(paths.create(&mut store, "/d", "", directory()).unwrap().id, 4);
}

#[test]
fn normalized_form_is_what_is_probed() {
    let new = NewBasePath::normalized(" /srv/media/ ", "  library ");
    assert_eq!(new.base_path, "/srv/media");
    assert_eq!(new.description, "library");
    let inner = NewBasePath::normalized("/a b/", "x");
    assert_eq!(inner.base_path, "/a b");
}

#[test]
fn same_path_twice_is_refused_and_changes_nothing() {
    let paths = registry();
    let mut store = Store::new();
    paths.create(&mut store, "/a/b", "first", directory()).unwrap();
    let second = paths.create(&mut store, "/a/b/", "second", directory());
    assert_eq!(second.unwrap_err(), Error::AlreadyExists);
    assert_eq!(store.base_paths.len(), 1);
    assert_eq!(store.base_paths[0].description, "first");
}

#[test]
fn path_under_a_registered_path_is_refused() {
    let paths = registry();
    let mut store = Store::new();
    paths.create(&mut store, "/a/b", "", directory()).unwrap();
    let nested = paths.create(&mut store, "/a/b/c", "", directory());
    assert_eq!(nested.unwrap_err(), Error::IsSubPath);
    assert_eq!(store.base_paths.len(), 1);
}

#[test]
fn containment_goes_by_characters() {
    let paths = registry();
    let mut store = Store::new();
    paths.create(&mut store, "/a/b", "", directory()).unwrap();
    assert_eq!(paths.create(&mut store, "/a/bc", "", directory()).unwrap_err(), Error::IsSubPath);
}

#[test]
fn path_above_a_registered_path_is_refused() {
    let paths = registry();
    let mut store = Store::new();
    paths.create(&mut store, "/a/b/c", "", directory()).unwrap();
    let outer = paths.create(&mut store, "/a/b", "", directory());
    assert_eq!(outer.unwrap_err(), Error::IsSubPath);
    assert_eq!(store.base_paths.len(), 1);
    assert_eq!(store.base_paths[0].base_path, "/a/b/c");
    assert_eq!(paths.create(&mut store, "/a/b/", "", directory()).unwrap_err(), Error::IsSubPath);
    assert_eq!(paths.create(&mut store, "/", "", directory()).unwrap_err(), Error::InvalidPath);
    assert_eq!(paths.create(&mut store, "/a", "", directory()).unwrap_err(), Error::IsSubPath);
    assert_eq!(store.base_paths.len(), 1);
}

#[test]
fn paths_beside_each_other_are_registered() {
    let paths = registry();
    let mut store = Store::new();
    paths.create(&mut store, "/a/b", "", directory()).unwrap();
    assert_eq!(paths.create(&mut store, "/a/c", "", directory()).unwrap().id, 2);
    assert_eq!(paths.create(&mut store, "/b/a/b", "", directory()).unwrap().id, 3);
    assert_eq!(paths.create(&mut store, "/a/c/d", "", directory()).unwrap_err(), Error::IsSubPath);
    assert_eq!(paths.create(&mut store, "/b", "", directory()).unwrap_err(), Error::IsSubPath);
    assert_eq!(store.base_paths.len(), 3);
}

#[test]
fn registered_path_is_told_before_containment() {
    let paths = registry();
    let mut store = Store::new();
    store.base_paths.push(BasePath { id: 1, base_path: "/a".to_string(), description: String::new() });
    store.base_paths.push(BasePath { id: 2, base_path: "/a/b".to_string(), description: String::new() });
    store.base_paths.push(BasePath { id: 3, base_path: "/a/b/c".to_string(), description: String::new() });
    assert_eq!(paths.create(&mut store, "/a/b", "", directory()).unwrap_err(), Error::AlreadyExists);
    assert_eq!(paths.create(&mut store, "/a/b/c", "", directory()).unwrap_err(), Error::AlreadyExists);
    assert_eq!(paths.create(&mut store, "/a/b/d", "", directory()).unwrap_err(), Error::IsSubPath);
    assert_eq!(store.base_paths.len(), 3);
}

#[test]
fn checks_are_made_in_order() {
    let paths = registry();
    let mut store = Store::new();
    let nowhere = PathStatus { exists: false, is_directory: false, is_absolute: false };
    let long = "d".repeat(301);
    assert_eq!(paths.create(&mut store, "  ///  ", &long, nowhere).unwrap_err(), Error::InvalidPath);
    assert_eq!(paths.create(&mut store, "", "", directory()).unwrap_err(), Error::InvalidPath);
    assert_eq!(paths.create(&mut store, "a", &long, nowhere).unwrap_err(), Error::DescriptionTooLong);
    assert_eq!(paths.create(&mut store, "a", "", nowhere).unwrap_err(), Error::NotExists);
    let file = PathStatus { exists: true, is_directory: false, is_absolute: false };
    assert_eq!(paths.create(&mut store, "a", "", file).unwrap_err(), Error::NotADirectory);
    let relative = PathStatus { exists: true, is_directory: true, is_absolute: false };
    assert_eq!(paths.create(&mut store, "a", "", relative).unwrap_err(), Error::NotAbsolute);
    assert_eq!(store.base_paths.len(), 0);
}

#[test]
fn description_is_measured_in_grapheme_clusters_on_create() {
    let paths = registry();
    let mut store = Store::new();
    let exactly = "e\u{301}".repeat(300);
    let created = paths.create(&mut store, "/a", &exactly, directory()).unwrap();
    assert_eq!(created.description.chars().count(), 600);
    let over = "e\u{301}".repeat(301);
    assert_eq!(paths.create(&mut store, "/b", &over, directory()).unwrap_err(), Error::DescriptionTooLong);
    let padded = format!("  {}  ", "d".repeat(300));
    assert!(paths.create(&mut store, "/c", &padded, directory()).is_ok());
}

#[test]
fn get_tells_invalid_from_missing() {
    let paths = registry();
    let mut store = Store::new();
    paths.create(&mut store, "/a", "", directory()).unwrap();
    assert_eq!(paths.get(&store, 0).unwrap_err(), Error::InvalidID);
    assert_eq!(paths.get(&store, -5).unwrap_err(), Error::InvalidID);
    assert_eq!(paths.get(&store, 2).unwrap_err(), Error::NotFound);
    assert_eq!(paths.get(&store, 1).unwrap().base_path, "/a");
}

#[test]
fn update_description_trims_and_counts_characters() {
    let paths = registry();
    let mut store = Store::new();
    paths.create(&mut store, "/a", "old", directory()).unwrap();
    paths.update_description(&mut store, 1, "  new words ").unwrap();
    let row = paths.get(&store, 1).unwrap();
    assert_eq!(row.description, "new words");
    assert_eq!(row.base_path, "/a");
    let clusters = "e\u{301}".repeat(151);
    assert_eq!(
        paths.update_description(&mut store, 1, &clusters).unwrap_err(),
        Error::DescriptionTooLong
    );
    assert_eq!(paths.get(&store, 1).unwrap().description, "new words");
    let exactly = format!(" {} ", "d".repeat(300));
    paths.update_description(&mut store, 1, &exactly).unwrap();
    assert_eq!(paths.get(&store, 1).unwrap().description.len(), 300);
    assert_eq!(paths.update_description(&mut store, 0, "x").unwrap_err(), Error::InvalidID);
    assert_eq!(paths.update_description(&mut store, 9, "x").unwrap_err(), Error::NotFound);
}

#[test]
fn list_filters_by_identifier_and_keeps_the_order() {
    let paths = registry();
    let mut store = Store::new();
    paths.create(&mut store, "/a", "", directory()).unwrap();
    paths.create(&mut store, "/b", "", directory()).unwrap();
    paths.create(&mut store, "/c", "", directory()).unwrap();
    let all: Vec<i32> = paths.list(&store, None).unwrap().iter().map(|row| row.id).collect();
    assert_eq!(all, vec![1, 2, 3]);
    let empty: Vec<i32> =
        paths.list(&store, Some(vec![])).unwrap().iter().map(|row| row.id).collect();
    assert_eq!(empty, vec![1, 2, 3]);
    let some: Vec<i32> =
        paths.list(&store, Some(vec![3, 7, 1, 3])).unwrap().iter().map(|row| row.id).collect();
    assert_eq!(some, vec![1, 3]);
    let none = paths.list(&store, Some(vec![9])).unwrap();
    assert!(none.is_empty());
}

#[test]
fn base_path_in_use_is_not_deleted() {
    let paths = registry();
    let files = media(DatabaseConnection::new(DatabaseLocation::URL(":memory:"), false).unwrap());
    let mut store = Store::new();
    paths.create(&mut store, "/a", "", directory()).unwrap();
    let file = files.create(&mut store, file_under(1, "x.png")).unwrap();
    assert_eq!(paths.delete(&mut store, 1).unwrap_err(), Error::InUse);
    assert_eq!(store.base_paths.len(), 1);
    files.delete(&mut store, file.id).unwrap();
    paths.delete(&mut store, 1).unwrap();
    assert_eq!(store.base_paths.len(), 0);
    assert_eq!(paths.get(&store, 1).unwrap_err(), Error::NotFound);
}

#[test]
fn delete_tells_invalid_from_missing() {
    let paths = registry();
    let mut store = Store::new();
    assert_eq!(paths.delete(&mut store, 0).unwrap_err(), Error::InvalidID);
    assert_eq!(paths.delete(&mut store, 1).unwrap_err(), Error::NotFound);
}

#[test]
fn last_identifier_exhausts_the_table() {
    let paths = registry();
    let mut store = Store::new();
    store.base_paths.push(BasePath {
        id: i32::MAX,
        base_path: "/z".to_string(),
        description: String::new(),
    });
    assert_eq!(
        paths.create(&mut store, "/a", "", directory()).unwrap_err(),
        Error::DatabaseError(StoreError::Exhausted)
    );
    assert_eq!(store.base_paths.len(), 1);
}
