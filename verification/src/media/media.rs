//! The catalogue of media files and of the tags that they carry.

use crate::data::media_file::{KiloBytes, MediaFile, MediaFileView, MediaType};
use crate::data::media_tag::MediaTag;
use crate::data::tag::{Tag, TagView};
use crate::database::connection::DatabaseConnection;
use crate::database::store::{
    fresh_key, has_key, index_of, keyed, lemma_filter_step, lemma_keyed_push, lemma_row_with,
    row_with, views, Store, StoreError, StoreView,
};
use crate::media::base_paths;
use crate::tags::category::or_kept;
use crate::tags::tags;
use crate::text::{
    grapheme_clusters, grapheme_count, is_slash, lemma_stripped_is_clean, same, strip_ends, trim,
    trimmed, without_outer_slashes, Strip,
};
use vstd::prelude::*;

verus! {

/// The most grapheme clusters that a description may have.
pub const MAX_DESCRIPTION_LENGTH: usize = 300;

/// The highest mark.
pub const MAX_MARK: i16 = 10;

/// Why the catalogue of media files refused an operation.
#[derive(Clone, Copy, Debug, PartialEq, Eq)]
pub enum Error {
    /// The tables refused the row.
    DatabaseError(StoreError),
    /// The base path was refused.
    BasePathsError(base_paths::Error),
    /// The identifier is zero or negative.
    InvalidID,
    /// No media file has the identifier, or the path.
    NotFound,
    /// The relative path is empty.
    InvalidRelativePath,
    /// The identifier of the base path is zero or negative.
    InvalidBasePathID,
    /// The width is zero or negative.
    InvalidWidth,
    /// The height is zero or negative.
    InvalidHeight,
    /// The size is not greater than zero.
    InvalidSize,
    /// The mark is not between 1 and 10.
    InvalidMark,
    /// The description is longer than 300.
    DescriptionTooLong,
    /// The base path has a media file of this path already.
    AlreadyExists,
    /// The media file still carries tags.
    InUse,
    /// The tag was refused.
    TagError(tags::Error),
    /// The media file carries the tag already.
    AlreadyTagged,
    /// The media file does not carry the tag.
    TagNotFound,
    /// No tags were given.
    NoTagsProvided,
}

/// The catalogue of media files.
#[derive(Debug)]
pub struct Media {
    pub connection: DatabaseConnection,
}

/// The catalogue of media files behind `connection`.
pub fn media(connection: DatabaseConnection) -> (registry: Media)
    ensures
        registry.connection == connection,
{
    Media { connection }
}

/// A media file to create.
#[derive(Debug)]
pub struct CreateMediaFile {
    /// The path relative to the base path.
    pub relative_path: String,
    /// The base path that the file belongs to.
    pub base_path_id: i32,
    /// The width, for an image or a video.
    pub width: Option<i16>,
    /// The height, for an image or a video.
    pub height: Option<i16>,
    /// The size in kilobytes.
    pub size: KiloBytes,
    /// The mark, from 1 to 10.
    pub mark: Option<i16>,
    /// The description.
    pub description: String,
    /// The kind of the file.
    pub media_type: MediaType,
}

/// The fields of a media file to change; a field that is `None` keeps its value.
#[derive(Debug)]
pub struct UpdateMediaFile {
    pub width: Option<i16>,
    pub height: Option<i16>,
    pub size: Option<KiloBytes>,
    pub mark: Option<i16>,
    pub description: Option<String>,
}

/// The fields of a patch, as mathematical values.
pub struct UpdateMediaFileView {
    pub width: Option<i16>,
    pub height: Option<i16>,
    pub size: Option<KiloBytes>,
    pub mark: Option<i16>,
    pub description: Option<Seq<char>>,
}

impl View for UpdateMediaFile {
    type V = UpdateMediaFileView;

    open spec fn view(&self) -> UpdateMediaFileView {
        UpdateMediaFileView {
            width: self.width,
            height: self.height,
            size: self.size,
            mark: self.mark,
            description: match self.description {
                None => None,
                Some(text) => Some(text@),
            },
        }
    }
}

impl View for CreateMediaFile {
    type V = MediaFileView;

    /// The media file that the request stands for: its path without slashes at either
    /// end, its description trimmed, and no identifier yet.
    open spec fn view(&self) -> MediaFileView {
        MediaFileView {
            id: 0,
            relative_path: without_outer_slashes(self.relative_path@),
            base_path_id: self.base_path_id as int,
            width: self.width,
            height: self.height,
            size: self.size,
            mark: self.mark,
            description: trimmed(self.description@),
            media_type: self.media_type,
        }
    }
}

/// What is wrong with a media file, if anything: the first check that fails.
pub open spec fn invalid(row: MediaFileView) -> Option<Error> {
    if row.relative_path.len() == 0 {
        Some(Error::InvalidRelativePath)
    } else if row.base_path_id <= 0 {
        Some(Error::InvalidBasePathID)
    } else if row.width is Some && row.width->0 <= 0 {
        Some(Error::InvalidWidth)
    } else if row.height is Some && row.height->0 <= 0 {
        Some(Error::InvalidHeight)
    } else if !row.size.is_positive() {
        Some(Error::InvalidSize)
    } else if row.mark is Some && !(1 <= row.mark->0 <= MAX_MARK) {
        Some(Error::InvalidMark)
    } else if grapheme_clusters(row.description) > MAX_DESCRIPTION_LENGTH {
        Some(Error::DescriptionTooLong)
    } else {
        None
    }
}

/// `row` with the fields that `patch` gives, and its other fields as they are. The
/// path, the base path and the kind are never changed.
pub open spec fn merged(row: MediaFileView, patch: UpdateMediaFileView) -> MediaFileView {
    MediaFileView {
        id: row.id,
        relative_path: row.relative_path,
        base_path_id: row.base_path_id,
        width: if patch.width is Some {
            patch.width
        } else {
            row.width
        },
        height: if patch.height is Some {
            patch.height
        } else {
            row.height
        },
        size: or_kept(patch.size, row.size),
        mark: if patch.mark is Some {
            patch.mark
        } else {
            row.mark
        },
        description: or_kept(patch.description, row.description),
        media_type: row.media_type,
    }
}

/// Whether the row is the media file of the path `relative_path` under `base_path_id`.
pub open spec fn at_path(row: MediaFileView, base_path_id: int, relative_path: Seq<char>) -> bool {
    row.base_path_id == base_path_id && row.relative_path == relative_path
}

/// Whether the base path `base_path_id` has a media file of the path `relative_path`.
pub open spec fn occupied(rows: Seq<MediaFileView>, base_path_id: int, relative_path: Seq<char>) -> bool {
    exists|i: int| 0 <= i < rows.len() && at_path(#[trigger] rows[i], base_path_id, relative_path)
}

/// The index of the first media file of the path `relative_path` under `base_path_id`.
pub open spec fn first_at_path(
    rows: Seq<MediaFileView>,
    base_path_id: int,
    relative_path: Seq<char>,
) -> int {
    choose|i: int|
        0 <= i < rows.len() && at_path(#[trigger] rows[i], base_path_id, relative_path)
            && forall|j: int|
            0 <= j < i ==> !at_path(#[trigger] rows[j], base_path_id, relative_path)
}

/// Whether the row says that the media file `media_id` carries the tag `tag_id`.
pub open spec fn links(row: MediaTag, media_id: int, tag_id: int) -> bool {
    row.media_id == media_id && row.tag_id == tag_id
}

/// Whether the media file `media_id` carries the tag `tag_id`.
pub open spec fn linked(rows: Seq<MediaTag>, media_id: int, tag_id: int) -> bool {
    exists|i: int| 0 <= i < rows.len() && links(#[trigger] rows[i], media_id, tag_id)
}

/// The index of the first association of the media file `media_id` with the tag `tag_id`.
pub open spec fn first_link(rows: Seq<MediaTag>, media_id: int, tag_id: int) -> int {
    choose|i: int|
        0 <= i < rows.len() && links(#[trigger] rows[i], media_id, tag_id) && forall|j: int|
            0 <= j < i ==> !links(#[trigger] rows[j], media_id, tag_id)
}

/// Whether the media file `media_id` carries any tag.
pub open spec fn tagged(rows: Seq<MediaTag>, media_id: int) -> bool {
    exists|i: int| 0 <= i < rows.len() && (#[trigger] rows[i]).media_id == media_id
}

/// Whether the media file `media_id` carries every tag of `tag_ids`.
pub open spec fn carries_all(rows: Seq<MediaTag>, media_id: int, tag_ids: Seq<i32>) -> bool {
    forall|k: int| 0 <= k < tag_ids.len() ==> linked(rows, media_id, #[trigger] tag_ids[k] as int)
}

/// The media files that carry every tag of `tag_ids`.
pub open spec fn with_all_tags(rows: Seq<MediaTag>, tag_ids: Seq<i32>) -> spec_fn(
    MediaFileView,
) -> bool {
    |row: MediaFileView| carries_all(rows, row.id, tag_ids)
}

/// The tags that the media file `media_id` carries.
pub open spec fn carried_by(rows: Seq<MediaTag>, media_id: int) -> spec_fn(TagView) -> bool {
    |row: TagView| linked(rows, media_id, row.id)
}

/// Why no media file is found under `id`, if none is.
pub open spec fn lookup_rejection(rows: Seq<MediaFileView>, id: int) -> Option<Error> {
    if id <= 0 {
        Some(Error::InvalidID)
    } else if !has_key(rows, id) {
        Some(Error::NotFound)
    } else {
        None
    }
}

/// Why no media file is found under a path, if none is.
pub open spec fn path_rejection(
    rows: Seq<MediaFileView>,
    base_path_id: int,
    relative_path: Seq<char>,
) -> Option<Error> {
    if without_outer_slashes(relative_path).len() == 0 {
        Some(Error::InvalidRelativePath)
    } else if base_path_id <= 0 {
        Some(Error::InvalidBasePathID)
    } else if !occupied(rows, base_path_id, without_outer_slashes(relative_path)) {
        Some(Error::NotFound)
    } else {
        None
    }
}

/// Why the base path `id` does not serve, if it does not.
pub open spec fn base_path_rejection(store: StoreView, id: int) -> Option<Error> {
    match base_paths::lookup_rejection(store.base_paths, id) {
        Some(e) => Some(Error::BasePathsError(e)),
        None => None,
    }
}

/// Why a media file is not created, if it is not: the base path is looked up, the
/// request is checked, the path must be free, and the table must have room.
pub open spec fn create_rejection(store: StoreView, request: MediaFileView) -> Option<Error> {
    if base_path_rejection(store, request.base_path_id) is Some {
        base_path_rejection(store, request.base_path_id)
    } else if invalid(request) is Some {
        invalid(request)
    } else if occupied(store.media, request.base_path_id, request.relative_path) {
        Some(Error::AlreadyExists)
    } else if fresh_key(store.media, i64::MAX as int) is None {
        Some(Error::DatabaseError(StoreError::Exhausted))
    } else {
        None
    }
}

/// Why a media file is not updated, if it is not.
pub open spec fn update_rejection(rows: Seq<MediaFileView>, id: int, patch: UpdateMediaFileView) -> Option<
    Error,
> {
    if lookup_rejection(rows, id) is Some {
        lookup_rejection(rows, id)
    } else {
        invalid(merged(row_with(rows, id), patch))
    }
}

/// Why a media file is not removed, if it is not.
pub open spec fn delete_rejection(store: StoreView, id: int) -> Option<Error> {
    if lookup_rejection(store.media, id) is Some {
        lookup_rejection(store.media, id)
    } else if tagged(store.media_tags, id) {
        Some(Error::InUse)
    } else {
        None
    }
}

/// Why a media file and a tag do not serve together, if they do not: the media file is
/// looked up first, then the tag.
pub open spec fn endpoints_rejection(store: StoreView, media_id: int, tag_id: int) -> Option<Error> {
    if lookup_rejection(store.media, media_id) is Some {
        lookup_rejection(store.media, media_id)
    } else {
        match tags::lookup_rejection(store.tags, tag_id) {
            Some(e) => Some(Error::TagError(e)),
            None => None,
        }
    }
}

/// Why a media file is not tagged, if it is not.
pub open spec fn tag_rejection(store: StoreView, media_id: int, tag_id: int) -> Option<Error> {
    if endpoints_rejection(store, media_id, tag_id) is Some {
        endpoints_rejection(store, media_id, tag_id)
    } else if linked(store.media_tags, media_id, tag_id) {
        Some(Error::AlreadyTagged)
    } else if fresh_key(store.media_tags, i64::MAX as int) is None {
        Some(Error::DatabaseError(StoreError::Exhausted))
    } else {
        None
    }
}

/// Why a tag is not taken off a media file, if it is not.
pub open spec fn untag_rejection(store: StoreView, media_id: int, tag_id: int) -> Option<Error> {
    if endpoints_rejection(store, media_id, tag_id) is Some {
        endpoints_rejection(store, media_id, tag_id)
    } else if !linked(store.media_tags, media_id, tag_id) {
        Some(Error::TagNotFound)
    } else {
        None
    }
}

/// The first row at a path is the one before which no row is at that path.
pub proof fn lemma_first_at_path(
    rows: Seq<MediaFileView>,
    base_path_id: int,
    relative_path: Seq<char>,
    at: int,
)
    requires
        0 <= at < rows.len(),
        at_path(rows[at], base_path_id, relative_path),
        forall|j: int| 0 <= j < at ==> !at_path(#[trigger] rows[j], base_path_id, relative_path),
    ensures
        occupied(rows, base_path_id, relative_path),
        first_at_path(rows, base_path_id, relative_path) == at,
{
    let k = first_at_path(rows, base_path_id, relative_path);
    if k < at {
        assert(!at_path(rows[k], base_path_id, relative_path));
    }
    if at < k {
        assert(!at_path(rows[at], base_path_id, relative_path));
    }
}

/// The first association of a pair is the one before which no row associates the pair.
pub proof fn lemma_first_link(rows: Seq<MediaTag>, media_id: int, tag_id: int, at: int)
    requires
        0 <= at < rows.len(),
        links(rows[at], media_id, tag_id),
        forall|j: int| 0 <= j < at ==> !links(#[trigger] rows[j], media_id, tag_id),
    ensures
        linked(rows, media_id, tag_id),
        first_link(rows, media_id, tag_id) == at,
{
    let k = first_link(rows, media_id, tag_id);
    if k < at {
        assert(!links(rows[k], media_id, tag_id));
    }
    if at < k {
        assert(!links(rows[at], media_id, tag_id));
    }
}

/// A patch without fields changes nothing.
pub proof fn lemma_empty_patch(row: MediaFileView)
    ensures
        merged(
            row,
            UpdateMediaFileView {
                width: None,
                height: None,
                size: None,
                mark: None,
                description: None,
            },
        ) == row,
{
}

/// A patch changes the fields that it gives and no others.
pub proof fn lemma_patch_fields(row: MediaFileView, patch: UpdateMediaFileView)
    ensures
        merged(row, patch).id == row.id,
        merged(row, patch).relative_path == row.relative_path,
        merged(row, patch).base_path_id == row.base_path_id,
        merged(row, patch).media_type == row.media_type,
        patch.width is None ==> merged(row, patch).width == row.width,
        patch.width is Some ==> merged(row, patch).width == patch.width,
        patch.height is None ==> merged(row, patch).height == row.height,
        patch.height is Some ==> merged(row, patch).height == patch.height,
        patch.size is None ==> merged(row, patch).size == row.size,
        patch.size is Some ==> merged(row, patch).size == patch.size->0,
        patch.mark is None ==> merged(row, patch).mark == row.mark,
        patch.mark is Some ==> merged(row, patch).mark == patch.mark,
        patch.description is None ==> merged(row, patch).description == row.description,
        patch.description is Some ==> merged(row, patch).description == patch.description->0,
{
}

/// A media file cannot be created twice: once it has been created and appended, the
/// same request meets `AlreadyExists`.
pub proof fn lemma_create_twice(store: StoreView, request: MediaFileView, row: MediaFileView)
    requires
        create_rejection(store, request) is None,
        row.base_path_id == request.base_path_id,
        row.relative_path == request.relative_path,
    ensures
        create_rejection((StoreView { media: store.media.push(row), ..store }), request) == Some(
            Error::AlreadyExists,
        ),
{
    let after = store.media.push(row);
    assert(after[store.media.len() as int] == row);
    assert(at_path(after[store.media.len() as int], request.base_path_id, request.relative_path));
}

/// A media file cannot be given a tag twice: once the association has been appended,
/// the same request meets `AlreadyTagged`.
pub proof fn lemma_tag_twice(store: StoreView, media_id: int, tag_id: int, row: MediaTag)
    requires
        tag_rejection(store, media_id, tag_id) is None,
        links(row, media_id, tag_id),
    ensures
        tag_rejection(
            (StoreView { media_tags: store.media_tags.push(row), ..store }),
            media_id,
            tag_id,
        ) == Some(Error::AlreadyTagged),
{
    let after = store.media_tags.push(row);
    assert(after[store.media_tags.len() as int] == row);
    assert(links(after[store.media_tags.len() as int], media_id, tag_id));
}

/// The path of a request in its stored form neither begins nor ends with a slash.
pub proof fn lemma_no_outer_slashes(path: Seq<char>)
    ensures
        ({
            let stored = without_outer_slashes(path);
            stored.len() > 0 ==> stored.first() != '/' && stored.last() != '/'
        }),
{
    lemma_stripped_is_clean(path, is_slash());
}

/// No two media files of one base path have the same path.
pub open spec fn distinct_files(rows: Seq<MediaFileView>) -> bool {
    forall|i: int, j: int|
        0 <= i < j < rows.len() ==> !at_path(
            #[trigger] rows[i],
            (#[trigger] rows[j]).base_path_id,
            rows[j].relative_path,
        )
}

/// No media file carries a tag twice.
pub open spec fn distinct_links(rows: Seq<MediaTag>) -> bool {
    forall|i: int, j: int|
        0 <= i < j < rows.len() ==> !links(
            #[trigger] rows[i],
            (#[trigger] rows[j]).media_id as int,
            rows[j].tag_id as int,
        )
}

/// Creating keeps the files distinct: a path that is free is no other file's.
pub proof fn lemma_create_keeps_files_distinct(rows: Seq<MediaFileView>, row: MediaFileView)
    requires
        distinct_files(rows),
        !occupied(rows, row.base_path_id, row.relative_path),
    ensures
        distinct_files(rows.push(row)),
{
    let after = rows.push(row);
    assert forall|i: int, j: int| 0 <= i < j < after.len() implies !at_path(
        #[trigger] after[i],
        (#[trigger] after[j]).base_path_id,
        after[j].relative_path,
    ) by {
        assert(after[i] == rows[i]);
        if j < rows.len() {
            assert(after[j] == rows[j]);
        }
    }
}

/// Updating keeps the files distinct: an update changes neither path nor base path.
pub proof fn lemma_update_keeps_files_distinct(
    rows: Seq<MediaFileView>,
    at: int,
    patch: UpdateMediaFileView,
)
    requires
        distinct_files(rows),
        0 <= at < rows.len(),
    ensures
        distinct_files(rows.update(at, merged(rows[at], patch))),
{
    let after = rows.update(at, merged(rows[at], patch));
    assert forall|i: int, j: int| 0 <= i < j < after.len() implies !at_path(
        #[trigger] after[i],
        (#[trigger] after[j]).base_path_id,
        after[j].relative_path,
    ) by {
        assert(!at_path(rows[i], rows[j].base_path_id, rows[j].relative_path));
    }
}

/// A table without one of its media files keeps the files distinct.
pub proof fn lemma_remove_keeps_files_distinct(rows: Seq<MediaFileView>, at: int)
    requires
        distinct_files(rows),
        0 <= at < rows.len(),
    ensures
        distinct_files(rows.remove(at)),
{
    let after = rows.remove(at);
    assert forall|i: int, j: int| 0 <= i < j < after.len() implies !at_path(
        #[trigger] after[i],
        (#[trigger] after[j]).base_path_id,
        after[j].relative_path,
    ) by {
        let a = if i < at { i } else { i + 1 };
        let b = if j < at { j } else { j + 1 };
        assert(after[i] == rows[a] && after[j] == rows[b]);
        assert(!at_path(rows[a], rows[b].base_path_id, rows[b].relative_path));
    }
}

/// A table without one of its associations keeps the associations distinct.
pub proof fn lemma_remove_keeps_links_distinct(rows: Seq<MediaTag>, at: int)
    requires
        distinct_links(rows),
        0 <= at < rows.len(),
    ensures
        distinct_links(rows.remove(at)),
{
    let after = rows.remove(at);
    assert forall|i: int, j: int| 0 <= i < j < after.len() implies !links(
        #[trigger] after[i],
        (#[trigger] after[j]).media_id as int,
        after[j].tag_id as int,
    ) by {
        let a = if i < at { i } else { i + 1 };
        let b = if j < at { j } else { j + 1 };
        assert(after[i] == rows[a] && after[j] == rows[b]);
        assert(!links(rows[a], rows[b].media_id as int, rows[b].tag_id as int));
    }
}

/// Tagging keeps the associations distinct.
pub proof fn lemma_tag_keeps_links_distinct(rows: Seq<MediaTag>, row: MediaTag)
    requires
        distinct_links(rows),
        !linked(rows, row.media_id as int, row.tag_id as int),
    ensures
        distinct_links(rows.push(row)),
{
    let after = rows.push(row);
    assert forall|i: int, j: int| 0 <= i < j < after.len() implies !links(
        #[trigger] after[i],
        (#[trigger] after[j]).media_id as int,
        after[j].tag_id as int,
    ) by {
        assert(after[i] == rows[i]);
        if j < rows.len() {
            assert(after[j] == rows[j]);
        }
    }
}

/// Where no media file carries a tag twice, a tag that is taken off a media file is
/// carried by it no more, and every other association stays.
pub proof fn lemma_untag_removes_the_link(rows: Seq<MediaTag>, media_id: int, tag_id: int)
    requires
        distinct_links(rows),
        linked(rows, media_id, tag_id),
    ensures
        !linked(rows.remove(first_link(rows, media_id, tag_id)), media_id, tag_id),
        forall|m: int, t: int|
            !(m == media_id && t == tag_id) ==> (linked(
                rows.remove(first_link(rows, media_id, tag_id)),
                m,
                t,
            ) <==> linked(rows, m, t)),
{
    let at = first_link(rows, media_id, tag_id);
    let k = choose|k: int| 0 <= k < rows.len() && links(#[trigger] rows[k], media_id, tag_id);
    lemma_least_link(rows, media_id, tag_id, k);
    let after = rows.remove(at);
    assert forall|i: int| 0 <= i < after.len() implies !links(
        #[trigger] after[i],
        media_id,
        tag_id,
    ) by {
        let a = if i < at { i } else { i + 1 };
        assert(after[i] == rows[a]);
        if links(rows[a], media_id, tag_id) {
            if a < at {
                assert(!links(rows[a], rows[at].media_id as int, rows[at].tag_id as int));
            } else {
                assert(!links(rows[at], rows[a].media_id as int, rows[a].tag_id as int));
            }
        }
    }
    assert forall|m: int, t: int| !(m == media_id && t == tag_id) implies (linked(after, m, t)
        <==> linked(rows, m, t)) by {
        if linked(after, m, t) {
            let i = choose|i: int| 0 <= i < after.len() && links(#[trigger] after[i], m, t);
            let a = if i < at { i } else { i + 1 };
            assert(after[i] == rows[a]);
            assert(links(rows[a], m, t));
        }
        if linked(rows, m, t) {
            let a = choose|a: int| 0 <= a < rows.len() && links(#[trigger] rows[a], m, t);
            let i = if a < at { a } else { a - 1 };
            assert(after[i] == rows[a]);
            assert(links(after[i], m, t));
        }
    }
}

/// Among the associations of a pair there is a first one.
pub proof fn lemma_least_link(rows: Seq<MediaTag>, media_id: int, tag_id: int, at: int)
    requires
        0 <= at < rows.len(),
        links(rows[at], media_id, tag_id),
    ensures
        0 <= first_link(rows, media_id, tag_id) <= at,
        links(rows[first_link(rows, media_id, tag_id)], media_id, tag_id),
    decreases at,
{
    if exists|j: int| 0 <= j < at && links(#[trigger] rows[j], media_id, tag_id) {
        let j = choose|j: int| 0 <= j < at && links(#[trigger] rows[j], media_id, tag_id);
        lemma_least_link(rows, media_id, tag_id, j);
    } else {
        lemma_first_link(rows, media_id, tag_id, at);
    }
}

/// A media file that has just been created is found under its identifier.
pub proof fn lemma_created_is_found(rows: Seq<MediaFileView>, row: MediaFileView)
    requires
        keyed(rows),
        fresh_key(rows, i64::MAX as int) == Some(row.id),
    ensures
        lookup_rejection(rows.push(row), row.id) is None,
        row_with(rows.push(row), row.id) == row,
{
    lemma_keyed_push(rows, row, i64::MAX as int);
    let after = rows.push(row);
    assert(after[rows.len() as int] == row);
    lemma_row_with(after, rows.len() as int);
}

/// A media file that carries a tag is not removed, and one that carries none, and is
/// in the catalogue, is.
pub proof fn lemma_delete_guard(store: StoreView, id: int)
    requires
        lookup_rejection(store.media, id) is None,
    ensures
        tagged(store.media_tags, id) <==> delete_rejection(store, id) == Some(Error::InUse),
        !tagged(store.media_tags, id) <==> delete_rejection(store, id) is None,
{
}

/// Which media files carry all tags of a list depends on the tags that occur in the
/// list alone: not on their order, nor on how often one occurs.
pub proof fn lemma_duplicate_tags(rows: Seq<MediaTag>, media_id: int, a: Seq<i32>, b: Seq<i32>)
    requires
        a.to_set() == b.to_set(),
    ensures
        carries_all(rows, media_id, a) == carries_all(rows, media_id, b),
{
    if carries_all(rows, media_id, a) {
        assert forall|k: int| 0 <= k < b.len() implies linked(
            rows,
            media_id,
            #[trigger] b[k] as int,
        ) by {
            assert(b.to_set().contains(b[k]));
            assert(a.contains(b[k]));
            let j = choose|j: int| 0 <= j < a.len() && a[j] == b[k];
            assert(linked(rows, media_id, a[j] as int));
        }
    }
    if carries_all(rows, media_id, b) {
        assert forall|k: int| 0 <= k < a.len() implies linked(
            rows,
            media_id,
            #[trigger] a[k] as int,
        ) by {
            assert(a.to_set().contains(a[k]));
            assert(b.contains(a[k]));
            let j = choose|j: int| 0 <= j < b.len() && b[j] == a[k];
            assert(linked(rows, media_id, b[j] as int));
        }
    }
}

impl MediaFile {
    /// Checks the media file, in the order of [`invalid`], and hands it back if it is valid.
    pub fn validate(self) -> (r: Result<MediaFile, Error>)
        ensures
            match r {
                Ok(row) => invalid(self@) is None && row == self,
                Err(e) => invalid(self@) == Some(e),
            },
    {
        if self.relative_path.as_str().is_empty() {
            return Err(Error::InvalidRelativePath);
        }
        if self.base_path_id <= 0 {
            return Err(Error::InvalidBasePathID);
        }
        match self.width {
            Some(val) if val <= 0 => {
                return Err(Error::InvalidWidth);
            },
            _ => (),
        };
        match self.height {
            Some(val) if val <= 0 => {
                return Err(Error::InvalidHeight);
            },
            _ => (),
        };
        if !self.size.positive() {
            return Err(Error::InvalidSize);
        }
        match self.mark {
            Some(val) if val <= 0 || val > MAX_MARK => {
                return Err(Error::InvalidMark);
            },
            _ => (),
        };
        if grapheme_count(self.description.as_str()) > MAX_DESCRIPTION_LENGTH {
            return Err(Error::DescriptionTooLong);
        }
        Ok(self)
    }

    /// The media file with the fields that `update_data` gives.
    pub fn with_new_data(self, update_data: UpdateMediaFile) -> (row: Self)
        ensures
            row@ == merged(self@, update_data@),
    {
        MediaFile {
            id: self.id,
            relative_path: self.relative_path,
            base_path_id: self.base_path_id,
            width: match update_data.width {
                None => self.width,
                Some(width) => Some(width),
            },
            height: match update_data.height {
                None => self.height,
                Some(height) => Some(height),
            },
            size: match update_data.size {
                None => self.size,
                Some(size) => size,
            },
            mark: match update_data.mark {
                None => self.mark,
                Some(mark) => Some(mark),
            },
            description: match update_data.description {
                None => self.description,
                Some(description) => description,
            },
            media_type: self.media_type,
        }
    }

    /// The media file that a request stands for, in its stored form and without an
    /// identifier yet.
    pub fn from_request(value: CreateMediaFile) -> (row: Self)
        ensures
            row@ == value@,
    {
        MediaFile {
            id: 0,
            relative_path: strip_ends(value.relative_path.as_str(), Strip::Slash, true),
            base_path_id: value.base_path_id,
            width: value.width,
            height: value.height,
            size: value.size,
            mark: value.mark,
            description: trim(value.description.as_str()),
            media_type: value.media_type,
        }
    }

    /// The request that would create this media file.
    pub fn into_request(self) -> (request: CreateMediaFile)
        ensures
            request.relative_path@ == self.relative_path@,
            request.base_path_id == self.base_path_id,
            request.width == self.width,
            request.height == self.height,
            request.size == self.size,
            request.mark == self.mark,
            request.description@ == self.description@,
            request.media_type == self.media_type,
    {
        CreateMediaFile {
            relative_path: self.relative_path,
            base_path_id: self.base_path_id,
            width: self.width,
            height: self.height,
            size: self.size,
            mark: self.mark,
            description: self.description,
            media_type: self.media_type,
        }
    }
}

impl Media {
    /// Where the media file `id` stands, or why it is not found.
    pub fn locate(&self, store: &Store, id: i64) -> (r: Result<usize, Error>)
        requires
            store@.wf(),
        ensures
            match r {
                Ok(at) => lookup_rejection(store@.media, id as int) is None && at == index_of(
                    store@.media,
                    id as int,
                ) && at < store@.media.len(),
                Err(e) => lookup_rejection(store@.media, id as int) == Some(e),
            },
    {
        if id <= 0 {
            return Err(Error::InvalidID);
        }
        match store.media_position(id) {
            Some(at) => {
                proof {
                    lemma_row_with(store@.media, at as int);
                }
                Ok(at)
            },
            None => Err(Error::NotFound),
        }
    }

    /// The media file with the identifier `id`.
    pub fn get(&self, store: &Store, id: i64) -> (r: Result<MediaFile, Error>)
        requires
            store@.wf(),
        ensures
            match r {
                Ok(row) => lookup_rejection(store@.media, id as int) is None && row@ == row_with(
                    store@.media,
                    id as int,
                ),
                Err(e) => lookup_rejection(store@.media, id as int) == Some(e),
            },
    {
        match self.locate(store, id) {
            Ok(at) => Ok(store.media[at].clone()),
            Err(e) => Err(e),
        }
    }

    /// Where the first media file of the path `relative_path` under `base_path_id` stands.
    pub fn path_position(&self, store: &Store, base_path_id: i32, relative_path: &str) -> (at:
        Option<usize>)
        ensures
            match at {
                Some(i) => occupied(store@.media, base_path_id as int, relative_path@) && i
                    == first_at_path(store@.media, base_path_id as int, relative_path@) && i
                    < store@.media.len(),
                None => !occupied(store@.media, base_path_id as int, relative_path@),
            },
    {
        let mut i: usize = 0;
        while i < store.media.len()
            invariant
                i <= store.media.len(),
                forall|j: int|
                    0 <= j < i ==> !at_path(
                        #[trigger] store@.media[j],
                        base_path_id as int,
                        relative_path@,
                    ),
            decreases store.media.len() - i,
        {
            let row = &store.media[i];
            if row.base_path_id == base_path_id && same(row.relative_path.as_str(), relative_path) {
                proof {
                    assert(store@.media[i as int] == row@);
                    lemma_first_at_path(
                        store@.media,
                        base_path_id as int,
                        relative_path@,
                        i as int,
                    );
                }
                return Some(i);
            }
            i += 1;
        }
        None
    }

    /// The media file of the path `relative_path`, slashes at its ends aside, under the
    /// base path `base_path_id`.
    pub fn get_by_relative_path(&self, store: &Store, base_path_id: i32, relative_path: &str) -> (r:
        Result<MediaFile, Error>)
        ensures
            match r {
                Ok(row) => path_rejection(store@.media, base_path_id as int, relative_path@)
                    is None && row@ == store@.media[first_at_path(
                    store@.media,
                    base_path_id as int,
                    without_outer_slashes(relative_path@),
                )],
                Err(e) => path_rejection(store@.media, base_path_id as int, relative_path@) == Some(
                    e,
                ),
            },
    {
        let path = strip_ends(relative_path, Strip::Slash, true);
        if path.as_str().is_empty() {
            return Err(Error::InvalidRelativePath);
        }
        if base_path_id <= 0 {
            return Err(Error::InvalidBasePathID);
        }
        match self.path_position(store, base_path_id, path.as_str()) {
            Some(at) => Ok(store.media[at].clone()),
            None => Err(Error::NotFound),
        }
    }

    /// Creates a media file. The checks are made in the order of [`create_rejection`];
    /// a refused file leaves the tables as they were, an accepted one is appended in its
    /// stored form under the next identifier.
    pub fn create(&self, store: &mut Store, create_data: CreateMediaFile) -> (r: Result<
        MediaFile,
        Error,
    >)
        requires
            old(store)@.wf(),
        ensures
            final(store)@.wf(),
            distinct_files(old(store)@.media) ==> distinct_files(final(store)@.media),
            match r {
                Ok(row) => create_rejection(old(store)@, create_data@) is None && row@ == (
                MediaFileView {
                    id: fresh_key(old(store)@.media, i64::MAX as int)->0,
                    ..create_data@
                }) && final(store)@ == (StoreView {
                    media: old(store)@.media.push(row@),
                    ..old(store)@
                }),
                Err(e) => create_rejection(old(store)@, create_data@) == Some(e) && final(store)@
                    == old(store)@,
            },
    {
        if let Err(e) = base_paths::base_paths_locate(store, create_data.base_path_id) {
            return Err(Error::BasePathsError(e));
        }
        let mut row = match MediaFile::from_request(create_data).validate() {
            Ok(row) => row,
            Err(e) => {
                return Err(e);
            },
        };
        if self.path_position(store, row.base_path_id, row.relative_path.as_str()).is_some() {
            return Err(Error::AlreadyExists);
        }
        match store.insert_media(row.clone()) {
            Ok(id) => {
                row.id = id;
                proof {
                    if distinct_files(old(store)@.media) {
                        lemma_create_keeps_files_distinct(old(store)@.media, row@);
                    }
                }
                Ok(row)
            },
            Err(e) => Err(Error::DatabaseError(e)),
        }
    }

    /// Changes the fields of the media file `id` that `update_data` gives. The merged
    /// file is checked as a whole; a file that fails a check stays as it was.
    pub fn update(&self, store: &mut Store, id: i64, update_data: UpdateMediaFile) -> (r: Result<
        (),
        Error,
    >)
        requires
            old(store)@.wf(),
        ensures
            final(store)@.wf(),
            distinct_files(old(store)@.media) ==> distinct_files(final(store)@.media),
            match r {
                Ok(_) => update_rejection(old(store)@.media, id as int, update_data@) is None
                    && final(store)@ == (StoreView {
                    media: old(store)@.media.update(
                        index_of(old(store)@.media, id as int),
                        merged(row_with(old(store)@.media, id as int), update_data@),
                    ),
                    ..old(store)@
                }),
                Err(e) => final(store)@ == old(store)@ && update_rejection(
                    old(store)@.media,
                    id as int,
                    update_data@,
                ) == Some(e),
            },
    {
        let at: usize = match self.locate(store, id) {
            Ok(at) => at,
            Err(e) => {
                return Err(e);
            },
        };
        let current = store.media[at].clone();
        match current.with_new_data(update_data).validate() {
            Ok(row) => {
                proof {
                    if distinct_files(store@.media) {
                        lemma_update_keeps_files_distinct(store@.media, at as int, update_data@);
                    }
                }
                store.replace_media(at, row);
                Ok(())
            },
            Err(e) => Err(e),
        }
    }

    /// All media files, in ascending order of their identifiers. The base path
    /// `base_path_id` must be registered; the files are not chosen by it.
    pub fn list(&self, store: &Store, base_path_id: i32) -> (r: Result<Vec<MediaFile>, Error>)
        requires
            store@.wf(),
        ensures
            match r {
                Ok(found) => base_path_rejection(store@, base_path_id as int) is None && views(
                    found@,
                ) == store@.media,
                Err(e) => base_path_rejection(store@, base_path_id as int) == Some(e),
            },
    {
        if let Err(e) = base_paths::base_paths_locate(store, base_path_id) {
            return Err(Error::BasePathsError(e));
        }
        let mut found: Vec<MediaFile> = Vec::new();
        let mut i: usize = 0;
        assert(views(found@) =~= store@.media.take(0));
        while i < store.media.len()
            invariant
                i <= store.media.len(),
                views(found@) == store@.media.take(i as int),
            decreases store.media.len() - i,
        {
            let row = store.media[i].clone();
            let ghost before = found@;
            found.push(row);
            assert(views(found@) =~= views(before).push(row@));
            assert(store@.media.take(i + 1) =~= store@.media.take(i as int).push(row@));
            i += 1;
        }
        assert(store@.media.take(i as int) =~= store@.media);
        Ok(found)
    }

    /// Whether the media file `id` carries any tag.
    pub fn has_tags(&self, store: &Store, id: i64) -> (used: bool)
        ensures
            used == tagged(store@.media_tags, id as int),
    {
        let mut i: usize = 0;
        while i < store.media_tags.len()
            invariant
                i <= store.media_tags.len(),
                forall|j: int| 0 <= j < i ==> (#[trigger] store@.media_tags[j]).media_id != id,
            decreases store.media_tags.len() - i,
        {
            if store.media_tags[i].media_id == id {
                assert(store@.media_tags[i as int].media_id == id);
                return true;
            }
            i += 1;
        }
        false
    }

    /// Removes the media file `id`, unless it still carries tags.
    pub fn delete(&self, store: &mut Store, id: i64) -> (r: Result<(), Error>)
        requires
            old(store)@.wf(),
        ensures
            final(store)@.wf(),
            distinct_files(old(store)@.media) ==> distinct_files(final(store)@.media),
            match r {
                Ok(_) => delete_rejection(old(store)@, id as int) is None && final(store)@ == (
                StoreView {
                    media: old(store)@.media.remove(index_of(old(store)@.media, id as int)),
                    ..old(store)@
                }),
                Err(e) => final(store)@ == old(store)@ && delete_rejection(old(store)@, id as int)
                    == Some(e),
            },
    {
        let at: usize = match self.locate(store, id) {
            Ok(at) => at,
            Err(e) => {
                return Err(e);
            },
        };
        if self.has_tags(store, id) {
            return Err(Error::InUse);
        }
        proof {
            if distinct_files(store@.media) {
                lemma_remove_keeps_files_distinct(store@.media, at as int);
            }
        }
        store.remove_media(at);
        Ok(())
    }

    /// Where the first association of the media file `media_id` with the tag `tag_id` stands.
    pub fn link_position(&self, store: &Store, media_id: i64, tag_id: i32) -> (at: Option<usize>)
        ensures
            match at {
                Some(i) => linked(store@.media_tags, media_id as int, tag_id as int) && i
                    == first_link(store@.media_tags, media_id as int, tag_id as int) && i
                    < store@.media_tags.len(),
                None => !linked(store@.media_tags, media_id as int, tag_id as int),
            },
    {
        let mut i: usize = 0;
        while i < store.media_tags.len()
            invariant
                i <= store.media_tags.len(),
                forall|j: int|
                    0 <= j < i ==> !links(
                        #[trigger] store@.media_tags[j],
                        media_id as int,
                        tag_id as int,
                    ),
            decreases store.media_tags.len() - i,
        {
            let row = &store.media_tags[i];
            if row.media_id == media_id && row.tag_id == tag_id {
                proof {
                    lemma_first_link(store@.media_tags, media_id as int, tag_id as int, i as int);
                }
                return Some(i);
            }
            i += 1;
        }
        None
    }

    /// Checks that the media file `media_id` and the tag `tag_id` are in the catalogue.
    pub fn endpoints(&self, store: &Store, media_id: i64, tag_id: i32) -> (r: Result<(), Error>)
        requires
            store@.wf(),
        ensures
            match r {
                Ok(_) => endpoints_rejection(store@, media_id as int, tag_id as int) is None,
                Err(e) => endpoints_rejection(store@, media_id as int, tag_id as int) == Some(e),
            },
    {
        if let Err(e) = self.locate(store, media_id) {
            return Err(e);
        }
        if tag_id <= 0 {
            return Err(Error::TagError(tags::Error::InvalidID));
        }
        if store.tag_position(tag_id).is_none() {
            return Err(Error::TagError(tags::Error::NotFound));
        }
        Ok(())
    }

    /// Gives the media file `media_id` the tag `tag_id`. Both must be in the
    /// catalogue, and the file must not carry the tag yet.
    pub fn insert_tag(&self, store: &mut Store, media_id: i64, tag_id: i32) -> (r: Result<
        (),
        Error,
    >)
        requires
            old(store)@.wf(),
        ensures
            final(store)@.wf(),
            distinct_links(old(store)@.media_tags) ==> distinct_links(final(store)@.media_tags),
            match r {
                Ok(_) => tag_rejection(old(store)@, media_id as int, tag_id as int) is None
                    && final(store)@ == (StoreView {
                    media_tags: old(store)@.media_tags.push(
                        MediaTag {
                            id: fresh_key(old(store)@.media_tags, i64::MAX as int)->0 as i64,
                            media_id,
                            tag_id,
                        },
                    ),
                    ..old(store)@
                }),
                Err(e) => final(store)@ == old(store)@ && tag_rejection(
                    old(store)@,
                    media_id as int,
                    tag_id as int,
                ) == Some(e),
            },
    {
        if let Err(e) = self.endpoints(store, media_id, tag_id) {
            return Err(e);
        }
        if self.link_position(store, media_id, tag_id).is_some() {
            return Err(Error::AlreadyTagged);
        }
        match store.insert_media_tag(MediaTag { id: 0, media_id, tag_id }) {
            Ok(id) => {
                proof {
                    if distinct_links(old(store)@.media_tags) {
                        lemma_tag_keeps_links_distinct(
                            old(store)@.media_tags,
                            MediaTag { id, media_id, tag_id },
                        );
                    }
                }
                Ok(())
            },
            Err(e) => Err(Error::DatabaseError(e)),
        }
    }

    /// The tags that the media file `media_id` carries, in ascending order of their
    /// identifiers.
    pub fn list_tags_for_media(&self, store: &Store, media_id: i64) -> (r: Result<Vec<Tag>, Error>)
        requires
            store@.wf(),
        ensures
            match r {
                Ok(found) => lookup_rejection(store@.media, media_id as int) is None && views(
                    found@,
                ) == store@.tags.filter(carried_by(store@.media_tags, media_id as int)),
                Err(e) => lookup_rejection(store@.media, media_id as int) == Some(e),
            },
    {
        if let Err(e) = self.locate(store, media_id) {
            return Err(e);
        }
        let ghost pred = carried_by(store@.media_tags, media_id as int);
        let mut found: Vec<Tag> = Vec::new();
        let mut i: usize = 0;
        proof {
            reveal(Seq::filter);
            assert(store@.tags.take(0).filter(pred) =~= views(found@));
        }
        while i < store.tags.len()
            invariant
                i <= store.tags.len(),
                pred == carried_by(store@.media_tags, media_id as int),
                views(found@) == store@.tags.take(i as int).filter(pred),
            decreases store.tags.len() - i,
        {
            let row = &store.tags[i];
            let keep = self.link_position(store, media_id, row.id).is_some();
            proof {
                lemma_filter_step(store@.tags, i as int, pred);
                assert(store@.tags[i as int] == row@);
                assert(keep == pred(row@));
            }
            if keep {
                let ghost before = found@;
                found.push(row.clone());
                assert(views(found@) =~= views(before).push(row@));
            }
            i += 1;
        }
        assert(store@.tags.take(i as int) =~= store@.tags);
        Ok(found)
    }

    /// Takes the tag `tag_id` off the media file `media_id`. Both must be in the
    /// catalogue, and the file must carry the tag.
    pub fn untag_media(&self, store: &mut Store, media_id: i64, tag_id: i32) -> (r: Result<
        (),
        Error,
    >)
        requires
            old(store)@.wf(),
        ensures
            final(store)@.wf(),
            distinct_links(old(store)@.media_tags) ==> distinct_links(final(store)@.media_tags),
            match r {
                Ok(_) => untag_rejection(old(store)@, media_id as int, tag_id as int) is None
                    && final(store)@ == (StoreView {
                    media_tags: old(store)@.media_tags.remove(
                        first_link(old(store)@.media_tags, media_id as int, tag_id as int),
                    ),
                    ..old(store)@
                }),
                Err(e) => final(store)@ == old(store)@ && untag_rejection(
                    old(store)@,
                    media_id as int,
                    tag_id as int,
                ) == Some(e),
            },
    {
        if let Err(e) = self.endpoints(store, media_id, tag_id) {
            return Err(e);
        }
        match self.link_position(store, media_id, tag_id) {
            Some(at) => {
                proof {
                    if distinct_links(store@.media_tags) {
                        lemma_remove_keeps_links_distinct(store@.media_tags, at as int);
                    }
                }
                store.remove_media_tag(at);
                Ok(())
            },
            None => Err(Error::TagNotFound),
        }
    }

    /// Whether the media file `media_id` carries every tag of `tag_ids`.
    pub fn has_all_tags(&self, store: &Store, media_id: i64, tag_ids: &Vec<i32>) -> (all: bool)
        ensures
            all == carries_all(store@.media_tags, media_id as int, tag_ids@),
    {
        let mut k: usize = 0;
        while k < tag_ids.len()
            invariant
                k <= tag_ids.len(),
                forall|j: int|
                    0 <= j < k ==> linked(
                        store@.media_tags,
                        media_id as int,
                        #[trigger] tag_ids@[j] as int,
                    ),
            decreases tag_ids.len() - k,
        {
            if self.link_position(store, media_id, tag_ids[k]).is_none() {
                return false;
            }
            k += 1;
        }
        true
    }

    /// The media files that carry every one of the tags `tag_ids`, in ascending order
    /// of their identifiers. A tag that is given twice counts once; no tags are refused.
    pub fn list_media_from_tags(&self, store: &Store, tag_ids: Vec<i32>) -> (r: Result<
        Vec<MediaFile>,
        Error,
    >)
        ensures
            match r {
                Ok(found) => tag_ids@.len() > 0 && views(found@) == store@.media.filter(
                    with_all_tags(store@.media_tags, tag_ids@),
                ),
                Err(e) => tag_ids@.len() == 0 && e == Error::NoTagsProvided,
            },
    {
        if tag_ids.len() == 0 {
            return Err(Error::NoTagsProvided);
        }
        let ghost pred = with_all_tags(store@.media_tags, tag_ids@);
        let mut found: Vec<MediaFile> = Vec::new();
        let mut i: usize = 0;
        proof {
            reveal(Seq::filter);
            assert(store@.media.take(0).filter(pred) =~= views(found@));
        }
        while i < store.media.len()
            invariant
                i <= store.media.len(),
                pred == with_all_tags(store@.media_tags, tag_ids@),
                views(found@) == store@.media.take(i as int).filter(pred),
            decreases store.media.len() - i,
        {
            let row = &store.media[i];
            let keep = self.has_all_tags(store, row.id, &tag_ids);
            proof {
                lemma_filter_step(store@.media, i as int, pred);
                assert(store@.media[i as int] == row@);
                assert(keep == pred(row@));
            }
            if keep {
                let ghost before = found@;
                found.push(row.clone());
                assert(views(found@) =~= views(before).push(row@));
            }
            i += 1;
        }
        assert(store@.media.take(i as int) =~= store@.media);
        Ok(found)
    }
}

} // verus!
