use media_catalog::data::media_file::{KiloBytes, MediaFile, MediaType};
use media_catalog::data::media_tag::MediaTag;
use media_catalog::data::tag_category::Category;
use media_catalog::database::connection::{DatabaseConnection, DatabaseLocation};
use media_catalog::database::store::{Store, StoreError};
use media_catalog::media::base_paths::{self, base_paths as base_path_registry, PathStatus};
use media_catalog::media::media::{media, CreateMediaFile, Error, Media, UpdateMediaFile};
use media_catalog::tags::tags::{self as tag_registry, tags, CreateTag};

fn connection() -> DatabaseConnection {
    DatabaseConnection::new(DatabaseLocation::URL(":memory:"), false).unwrap()
}

fn catalogue() -> Media {
    media(connection())
}

fn kilobytes(size: f64) -> KiloBytes {
    KiloBytes { bits: size.to_bits() }
}

fn seeded() -> Store {
    let mut store = Store::new();
    let on_disk = PathStatus { exists: true, is_directory: true, is_absolute: true };
    let paths = base_path_registry(connection());
    paths.create(&mut store, "/photos", "", on_disk).unwrap();
    paths.create(&mut store, "/music", "", on_disk).unwrap();
    store
        .insert_category(Category {
            id: 0,
            name: "People".to_string(),
            color: "#ffffff".to_string(),
            description: String::new(),
        })
        .unwrap();
    let registry = tags(connection());
    for name in ["anna", "bob", "carl"] {
        registry
            .create(
                &mut store,
                CreateTag { name: name.to_string(), category_id: 1, description: String::new() },
            )
            .unwrap();
    }
    store
}

fn request(relative_path: &str, base_path_id: i32) -> CreateMediaFile {
    CreateMediaFile {
        relative_path: relative_path.to_string(),
        base_path_id,
        width: Some(640),
        height: Some(480),
        size: kilobytes(120.5),
        mark: Some(7),
        description: String::new(),
        media_type: MediaType::Image,
    }
}

fn no_change() -> UpdateMediaFile {
    UpdateMediaFile { width: None, height: None, size: None, mark: None, description: None }
}

fn ids(rows: &[MediaFile]) -> Vec<i64> {
    rows.iter().map(|row| row.id).collect()
}

#[test]
fn media_create_stores_the_normalized_file_and_get_finds_it() {
    let files = catalogue();
    let mut store = seeded();
    let mut data = request("//2020/beach.png/", 1);
    data.description = "  at the sea ".to_string();
    let created = files.create(&mut store, data).unwrap();
    assert_eq!(created.id, 1);
    assert_eq!(created.relative_path, "2020/beach.png");
    assert_eq!(created.description, "at the sea");
    let found = files.get(&store, created.id).unwrap();
    assert_eq!(found.id, 1);
    assert_eq!(found.relative_path, "2020/beach.png");
    assert_eq!(found.base_path_id, 1);
    assert_eq!(found.width, Some(640));
    assert_eq!(found.height, Some(480));
    assert_eq!(f64::from_bits(found.size.bits), 120.5);
    assert_eq!(found.mark, Some(7));
    assert_eq!(found.description, "at the sea");
    assert_eq!(found.media_type, MediaType::Image);
}

#[test]
fn same_file_twice_is_refused_and_changes_nothing() {
    let files = catalogue();
    let mut store = seeded();
    files.create(&mut store, request("a.png", 1)).unwrap();
    assert_eq!(files.create(&mut store, request("/a.png/", 1)).unwrap_err(), Error::AlreadyExists);
    assert_eq!(store.media.len(), 1);
    assert!(files.create(&mut store, request("a.png", 2)).is_ok());
    assert!(files.create(&mut store, request("A.png", 1)).is_ok());
}

#[test]
fn media_create_rejects_in_order() {
    let files = catalogue();
    let mut store = seeded();
    let mut data = request("///", 0);
    data.width = Some(0);
    assert_eq!(
        files.create(&mut store, data).unwrap_err(),
        Error::BasePathsError(base_paths::Error::InvalidID)
    );
    assert_eq!(
        files.create(&mut store, request("a.png", 3)).unwrap_err(),
        Error::BasePathsError(base_paths::Error::NotFound)
    );
    let mut data = request("///", 1);
    data.width = Some(0);
    assert_eq!(files.create(&mut store, data).unwrap_err(), Error::InvalidRelativePath);
    let mut data = request("a", 1);
    data.width = Some(0);
    data.height = Some(-1);
    assert_eq!(files.create(&mut store, data).unwrap_err(), Error::InvalidWidth);
    let mut data = request("a", 1);
    data.height = Some(0);
    data.size = kilobytes(0.0);
    assert_eq!(files.create(&mut store, data).unwrap_err(), Error::InvalidHeight);
    let mut data = request("a", 1);
    data.size = kilobytes(0.0);
    data.mark = Some(11);
    assert_eq!(files.create(&mut store, data).unwrap_err(), Error::InvalidSize);
    let mut data = request("a", 1);
    data.size = kilobytes(-4.0);
    assert_eq!(files.create(&mut store, data).unwrap_err(), Error::InvalidSize);
    let mut data = request("a", 1);
    data.size = kilobytes(f64::NAN);
    assert_eq!(files.create(&mut store, data).unwrap_err(), Error::InvalidSize);
    let mut data = request("a", 1);
    data.mark = Some(11);
    data.description = "d".repeat(301);
    assert_eq!(files.create(&mut store, data).unwrap_err(), Error::InvalidMark);
    let mut data = request("a", 1);
    data.mark = Some(0);
    assert_eq!(files.create(&mut store, data).unwrap_err(), Error::InvalidMark);
    let mut data = request("a", 1);
    data.description = "d".repeat(301);
    assert_eq!(files.create(&mut store, data).unwrap_err(), Error::DescriptionTooLong);
    assert_eq!(store.media.len(), 0);
}

#[test]
fn media_create_accepts_the_limits() {
    let files = catalogue();
    let mut store = seeded();
    let mut data = request("a", 1);
    data.width = Some(1);
    data.height = None;
    data.mark = Some(1);
    data.size = kilobytes(f64::MIN_POSITIVE);
    data.description = format!(" {} ", "e\u{301}".repeat(300));
    assert!(files.create(&mut store, data).is_ok());
    let mut data = request("b", 1);
    data.width = None;
    data.mark = Some(10);
    assert!(files.create(&mut store, data).is_ok());
    let mut data = request("c", 1);
    data.mark = None;
    assert!(files.create(&mut store, data).is_ok());
}

#[test]
fn media_validate_checks_the_base_path_identifier() {
    let row = MediaFile::from_request(request("a", 0));
    assert_eq!(row.validate().unwrap_err(), Error::InvalidBasePathID);
    let row = MediaFile::from_request(request("/", 0));
    assert_eq!(row.validate().unwrap_err(), Error::InvalidRelativePath);
    let row = MediaFile::from_request(request("/a/b/", 4));
    let row = row.validate().unwrap();
    assert_eq!(row.id, 0);
    assert_eq!(row.relative_path, "a/b");
    let back = row.into_request();
    assert_eq!(back.relative_path, "a/b");
    assert_eq!(back.base_path_id, 4);
    assert_eq!(back.media_type, MediaType::Image);
}

#[test]
fn media_get_tells_invalid_from_missing() {
    let files = catalogue();
    let store = seeded();
    assert_eq!(files.get(&store, 0).unwrap_err(), Error::InvalidID);
    assert_eq!(files.get(&store, -2).unwrap_err(), Error::InvalidID);
    assert_eq!(files.get(&store, 1).unwrap_err(), Error::NotFound);
}

#[test]
fn media_is_found_by_its_path() {
    let files = catalogue();
    let mut store = seeded();
    files.create(&mut store, request("x/a.png", 1)).unwrap();
    files.create(&mut store, request("x/a.png", 2)).unwrap();
    assert_eq!(files.get_by_relative_path(&store, 2, "/x/a.png/").unwrap().id, 2);
    assert_eq!(files.get_by_relative_path(&store, 1, "x/a.png").unwrap().id, 1);
    assert_eq!(files.get_by_relative_path(&store, 1, "x/b.png").unwrap_err(), Error::NotFound);
    assert_eq!(files.get_by_relative_path(&store, 0, "//").unwrap_err(), Error::InvalidRelativePath);
    assert_eq!(files.get_by_relative_path(&store, 0, "x").unwrap_err(), Error::InvalidBasePathID);
    assert_eq!(files.get_by_relative_path(&store, 3, "x/a.png").unwrap_err(), Error::NotFound);
}

#[test]
fn media_update_without_fields_changes_nothing() {
    let files = catalogue();
    let mut store = seeded();
    let mut data = request("a.png", 1);
    data.description = "sea".to_string();
    files.create(&mut store, data).unwrap();
    files.update(&mut store, 1, no_change()).unwrap();
    let row = files.get(&store, 1).unwrap();
    assert_eq!(row.relative_path, "a.png");
    assert_eq!(row.base_path_id, 1);
    assert_eq!(row.width, Some(640));
    assert_eq!(row.height, Some(480));
    assert_eq!(f64::from_bits(row.size.bits), 120.5);
    assert_eq!(row.mark, Some(7));
    assert_eq!(row.description, "sea");
    assert_eq!(row.media_type, MediaType::Image);
}

#[test]
fn media_update_changes_only_the_given_fields() {
    let files = catalogue();
    let mut store = seeded();
    files.create(&mut store, request("a.png", 1)).unwrap();
    files.create(&mut store, request("b.png", 1)).unwrap();
    let mut patch = no_change();
    patch.mark = Some(10);
    patch.description = Some(" kept as given ".to_string());
    files.update(&mut store, 1, patch).unwrap();
    let row = files.get(&store, 1).unwrap();
    assert_eq!(row.mark, Some(10));
    assert_eq!(row.description, " kept as given ");
    assert_eq!(row.width, Some(640));
    assert_eq!(row.height, Some(480));
    assert_eq!(f64::from_bits(row.size.bits), 120.5);
    let mut patch = no_change();
    patch.width = Some(800);
    patch.height = Some(600);
    patch.size = Some(kilobytes(1.25));
    files.update(&mut store, 1, patch).unwrap();
    let row = files.get(&store, 1).unwrap();
    assert_eq!(row.width, Some(800));
    assert_eq!(row.height, Some(600));
    assert_eq!(f64::from_bits(row.size.bits), 1.25);
    assert_eq!(row.mark, Some(10));
    assert_eq!(files.get(&store, 2).unwrap().mark, Some(7));
}

#[test]
fn media_update_checks_the_merged_file() {
    let files = catalogue();
    let mut store = seeded();
    files.create(&mut store, request("a.png", 1)).unwrap();
    let mut patch = no_change();
    patch.width = Some(-1);
    assert_eq!(files.update(&mut store, 1, patch).unwrap_err(), Error::InvalidWidth);
    let mut patch = no_change();
    patch.height = Some(0);
    assert_eq!(files.update(&mut store, 1, patch).unwrap_err(), Error::InvalidHeight);
    let mut patch = no_change();
    patch.size = Some(kilobytes(-0.0));
    assert_eq!(files.update(&mut store, 1, patch).unwrap_err(), Error::InvalidSize);
    let mut patch = no_change();
    patch.mark = Some(11);
    assert_eq!(files.update(&mut store, 1, patch).unwrap_err(), Error::InvalidMark);
    let mut patch = no_change();
    patch.description = Some("d".repeat(301));
    assert_eq!(files.update(&mut store, 1, patch).unwrap_err(), Error::DescriptionTooLong);
    assert_eq!(files.update(&mut store, 2, no_change()).unwrap_err(), Error::NotFound);
    assert_eq!(files.update(&mut store, 0, no_change()).unwrap_err(), Error::InvalidID);
    store.media[0].mark = Some(12);
    let mut patch = no_change();
    patch.width = Some(10);
    assert_eq!(files.update(&mut store, 1, patch).unwrap_err(), Error::InvalidMark);
    assert_eq!(files.get(&store, 1).unwrap().width, Some(640));
}

#[test]
fn media_list_checks_the_base_path_and_returns_all_files() {
    let files = catalogue();
    let mut store = seeded();
    files.create(&mut store, request("a.png", 1)).unwrap();
    files.create(&mut store, request("b.mp3", 2)).unwrap();
    files.create(&mut store, request("c.png", 1)).unwrap();
    assert_eq!(ids(&files.list(&store, 1).unwrap()), vec![1, 2, 3]);
    assert_eq!(ids(&files.list(&store, 2).unwrap()), vec![1, 2, 3]);
    assert_eq!(
        files.list(&store, 3).unwrap_err(),
        Error::BasePathsError(base_paths::Error::NotFound)
    );
    assert_eq!(
        files.list(&store, 0).unwrap_err(),
        Error::BasePathsError(base_paths::Error::InvalidID)
    );
}

#[test]
fn tagged_media_is_not_deleted() {
    let files = catalogue();
    let mut store = seeded();
    files.create(&mut store, request("a.png", 1)).unwrap();
    files.insert_tag(&mut store, 1, 1).unwrap();
    files.insert_tag(&mut store, 1, 2).unwrap();
    assert_eq!(files.delete(&mut store, 1).unwrap_err(), Error::InUse);
    files.untag_media(&mut store, 1, 1).unwrap();
    assert_eq!(files.delete(&mut store, 1).unwrap_err(), Error::InUse);
    files.untag_media(&mut store, 1, 2).unwrap();
    files.delete(&mut store, 1).unwrap();
    assert_eq!(files.get(&store, 1).unwrap_err(), Error::NotFound);
    assert_eq!(files.delete(&mut store, 1).unwrap_err(), Error::NotFound);
    assert_eq!(files.delete(&mut store, 0).unwrap_err(), Error::InvalidID);
}

#[test]
fn same_tag_twice_on_a_file_is_refused() {
    let files = catalogue();
    let mut store = seeded();
    files.create(&mut store, request("a.png", 1)).unwrap();
    files.insert_tag(&mut store, 1, 2).unwrap();
    assert_eq!(store.media_tags, vec![MediaTag { id: 1, media_id: 1, tag_id: 2 }]);
    assert_eq!(files.insert_tag(&mut store, 1, 2).unwrap_err(), Error::AlreadyTagged);
    assert_eq!(store.media_tags.len(), 1);
}

#[test]
fn tagging_checks_the_file_then_the_tag() {
    let files = catalogue();
    let mut store = seeded();
    files.create(&mut store, request("a.png", 1)).unwrap();
    assert_eq!(files.insert_tag(&mut store, 0, 0).unwrap_err(), Error::InvalidID);
    assert_eq!(files.insert_tag(&mut store, 2, 9).unwrap_err(), Error::NotFound);
    assert_eq!(
        files.insert_tag(&mut store, 1, 9).unwrap_err(),
        Error::TagError(tag_registry::Error::NotFound)
    );
    assert_eq!(
        files.insert_tag(&mut store, 1, 0).unwrap_err(),
        Error::TagError(tag_registry::Error::InvalidID)
    );
    assert_eq!(store.media_tags.len(), 0);
}

#[test]
fn untagging_needs_the_association() {
    let files = catalogue();
    let mut store = seeded();
    files.create(&mut store, request("a.png", 1)).unwrap();
    files.create(&mut store, request("b.png", 1)).unwrap();
    files.insert_tag(&mut store, 1, 1).unwrap();
    files.insert_tag(&mut store, 2, 1).unwrap();
    assert_eq!(files.untag_media(&mut store, 1, 2).unwrap_err(), Error::TagNotFound);
    assert_eq!(files.untag_media(&mut store, 3, 1).unwrap_err(), Error::NotFound);
    assert_eq!(
        files.untag_media(&mut store, 1, 8).unwrap_err(),
        Error::TagError(tag_registry::Error::NotFound)
    );
    files.untag_media(&mut store, 1, 1).unwrap();
    assert_eq!(store.media_tags, vec![MediaTag { id: 2, media_id: 2, tag_id: 1 }]);
    assert_eq!(files.untag_media(&mut store, 1, 1).unwrap_err(), Error::TagNotFound);
}

#[test]
fn tags_of_a_file_are_listed() {
    let files = catalogue();
    let mut store = seeded();
    files.create(&mut store, request("a.png", 1)).unwrap();
    files.create(&mut store, request("b.png", 1)).unwrap();
    files.insert_tag(&mut store, 1, 3).unwrap();
    files.insert_tag(&mut store, 1, 1).unwrap();
    files.insert_tag(&mut store, 2, 2).unwrap();
    let carried: Vec<i32> =
        files.list_tags_for_media(&store, 1).unwrap().iter().map(|tag| tag.id).collect();
    assert_eq!(carried, vec![1, 3]);
    let carried: Vec<String> =
        files.list_tags_for_media(&store, 2).unwrap().iter().map(|tag| tag.name.clone()).collect();
    assert_eq!(carried, vec!["bob"]);
    assert_eq!(files.list_tags_for_media(&store, 0).unwrap_err(), Error::InvalidID);
    assert_eq!(files.list_tags_for_media(&store, 3).unwrap_err(), Error::NotFound);
}

#[test]
fn media_with_all_tags_are_listed() {
    let files = catalogue();
    let mut store = seeded();
    for name in ["m1", "m2", "m3"] {
        files.create(&mut store, request(name, 1)).unwrap();
    }
    for (file, tag) in [(1, 1), (1, 2), (2, 1), (3, 1), (3, 2), (3, 3)] {
        files.insert_tag(&mut store, file, tag).unwrap();
    }
    assert_eq!(ids(&files.list_media_from_tags(&store, vec![1, 2]).unwrap()), vec![1, 3]);
    assert_eq!(ids(&files.list_media_from_tags(&store, vec![2, 1]).unwrap()), vec![1, 3]);
    assert_eq!(ids(&files.list_media_from_tags(&store, vec![1]).unwrap()), vec![1, 2, 3]);
    assert_eq!(ids(&files.list_media_from_tags(&store, vec![3, 1, 2]).unwrap()), vec![3]);
    assert!(files.list_media_from_tags(&store, vec![1, 9]).unwrap().is_empty());
}

#[test]
fn no_tags_are_refused() {
    let files = catalogue();
    let store = seeded();
    assert_eq!(files.list_media_from_tags(&store, vec![]).unwrap_err(), Error::NoTagsProvided);
}

#[test]
fn a_tag_given_twice_counts_once() {
    let files = catalogue();
    let mut store = seeded();
    for name in ["m1", "m2"] {
        files.create(&mut store, request(name, 1)).unwrap();
    }
    for (file, tag) in [(1, 1), (1, 2), (2, 1)] {
        files.insert_tag(&mut store, file, tag).unwrap();
    }
    assert_eq!(ids(&files.list_media_from_tags(&store, vec![1, 1, 2, 2, 1]).unwrap()), vec![1]);
    assert_eq!(ids(&files.list_media_from_tags(&store, vec![1, 1]).unwrap()), vec![1, 2]);
}

#[test]
fn last_media_identifiers_exhaust_the_tables() {
    let files = catalogue();
    let mut store = seeded();
    files.create(&mut store, request("a", 1)).unwrap();
    store.media_tags.push(MediaTag { id: i64::MAX, media_id: 1, tag_id: 1 });
    assert_eq!(
        files.insert_tag(&mut store, 1, 2).unwrap_err(),
        Error::DatabaseError(StoreError::Exhausted)
    );
    store.media[0].id = i64::MAX;
    assert_eq!(
        files.create(&mut store, request("b", 1)).unwrap_err(),
        Error::DatabaseError(StoreError::Exhausted)
    );
}
