//! The registry of base paths: the root directories under which media files are tracked.

use crate::data::base_path::{BasePath, BasePathView};
use crate::data::media_file::MediaFileView;
use crate::database::connection::DatabaseConnection;
use crate::database::store::{
    fresh_key, has_key, index_of, keyed, lemma_filter_step, lemma_keyed_filter, lemma_keyed_push,
    lemma_row_with, row_with, views, Store, StoreError, StoreView,
};
use crate::text::{
    char_count, grapheme_clusters, grapheme_count, is_prefix, is_slash, lemma_strip_back_clean,
    same, starts_with, strip_ends, trim, trimmed, without_trailing_slashes, Strip,
};
use vstd::prelude::*;

verus! {

/// The most grapheme clusters, or characters, that a description may have.
pub const MAX_DESCRIPTION_LENGTH: usize = 300;

/// The registry of base paths.
#[derive(Debug)]
pub struct BasePaths {
    pub connection: DatabaseConnection,
}

/// The registry of base paths of the catalogue behind `connection`.
pub fn base_paths(connection: DatabaseConnection) -> (registry: BasePaths)
    ensures
        registry.connection == connection,
{
    BasePaths { connection }
}

/// Why the registry of base paths refused an operation.
#[derive(Clone, Copy, Debug, PartialEq, Eq)]
pub enum Error {
    /// The tables refused the row.
    DatabaseError(StoreError),
    /// The identifier is zero or negative.
    InvalidID,
    /// No base path has the identifier.
    NotFound,
    /// The description is longer than 300.
    DescriptionTooLong,
    /// The path is empty.
    InvalidPath,
    /// The path is not on disk.
    NotExists,
    /// The path is not a directory.
    NotADirectory,
    /// The path is not absolute.
    NotAbsolute,
    /// The path is registered already.
    AlreadyExists,
    /// The path lies under a registered path, or a registered path lies under it.
    IsSubPath,
    /// Media files still belong to the base path.
    InUse,
}

/// A base path to register, in its stored form: the path trimmed and without trailing
/// slashes, the description trimmed.
#[derive(Debug)]
pub struct NewBasePath {
    pub base_path: String,
    pub description: String,
}

/// What the file system says of a path.
#[derive(Clone, Copy, Debug)]
pub struct PathStatus {
    /// The path is on disk.
    pub exists: bool,
    /// The path is a directory.
    pub is_directory: bool,
    /// The path is absolute.
    pub is_absolute: bool,
}

/// The stored form of a path: trimmed, then without trailing slashes.
pub open spec fn normalized_path(path: Seq<char>) -> Seq<char> {
    without_trailing_slashes(trimmed(path))
}

/// Whether `path` is registered.
pub open spec fn registered(rows: Seq<BasePathView>, path: Seq<char>) -> bool {
    exists|i: int| 0 <= i < rows.len() && (#[trigger] rows[i]).base_path == path
}

/// Whether one of the two paths is what the other begins with: one lies under the
/// other, or they are the same.
pub open spec fn nested(a: Seq<char>, b: Seq<char>) -> bool {
    is_prefix(a, b) || is_prefix(b, a)
}

/// Whether `path` lies under a registered path, or a registered path under it.
pub open spec fn contained(rows: Seq<BasePathView>, path: Seq<char>) -> bool {
    exists|i: int| 0 <= i < rows.len() && #[trigger] nested(rows[i].base_path, path)
}

/// How `path` collides with the registered paths: it is one of them, or it lies under
/// one of them or one of them under it, or it does not collide.
pub open spec fn overlap(rows: Seq<BasePathView>, path: Seq<char>) -> Option<Error> {
    if registered(rows, path) {
        Some(Error::AlreadyExists)
    } else if contained(rows, path) {
        Some(Error::IsSubPath)
    } else {
        None
    }
}

/// No base path is what another begins with: no registered directory lies under
/// another, and none is registered twice.
pub open spec fn free_of_containment(rows: Seq<BasePathView>) -> bool {
    forall|i: int, j: int|
        0 <= i < rows.len() && 0 <= j < rows.len() && i != j ==> !#[trigger] is_prefix(
            rows[i].base_path,
            rows[j].base_path,
        )
}

/// Why a base path is not registered, if it is not: the first check that fails, in
/// the order in which the checks are made.
pub open spec fn create_rejection(
    store: StoreView,
    base_path: Seq<char>,
    description: Seq<char>,
    on_disk: PathStatus,
) -> Option<Error> {
    let path = normalized_path(base_path);
    if path.len() == 0 {
        Some(Error::InvalidPath)
    } else if grapheme_clusters(trimmed(description)) > MAX_DESCRIPTION_LENGTH {
        Some(Error::DescriptionTooLong)
    } else if !on_disk.exists {
        Some(Error::NotExists)
    } else if !on_disk.is_directory {
        Some(Error::NotADirectory)
    } else if !on_disk.is_absolute {
        Some(Error::NotAbsolute)
    } else if overlap(store.base_paths, path) is Some {
        overlap(store.base_paths, path)
    } else if fresh_key(store.base_paths, i32::MAX as int) is None {
        Some(Error::DatabaseError(StoreError::Exhausted))
    } else {
        None
    }
}

/// Why no base path is found under `id`, if none is.
pub open spec fn lookup_rejection(rows: Seq<BasePathView>, id: int) -> Option<Error> {
    if id <= 0 {
        Some(Error::InvalidID)
    } else if !has_key(rows, id) {
        Some(Error::NotFound)
    } else {
        None
    }
}

/// Whether a media file belongs to the base path `id`.
pub open spec fn in_use(media: Seq<MediaFileView>, id: int) -> bool {
    exists|i: int| 0 <= i < media.len() && (#[trigger] media[i]).base_path_id == id
}

/// Why a base path is not removed, if it is not.
pub open spec fn delete_rejection(store: StoreView, id: int) -> Option<Error> {
    if lookup_rejection(store.base_paths, id) is Some {
        lookup_rejection(store.base_paths, id)
    } else if in_use(store.media, id) {
        Some(Error::InUse)
    } else {
        None
    }
}

/// Why a description is not changed, if it is not.
pub open spec fn describe_rejection(
    rows: Seq<BasePathView>,
    id: int,
    description: Seq<char>,
) -> Option<Error> {
    if lookup_rejection(rows, id) is Some {
        lookup_rejection(rows, id)
    } else if trimmed(description).len() > MAX_DESCRIPTION_LENGTH {
        Some(Error::DescriptionTooLong)
    } else {
        None
    }
}

/// Whether a list of identifiers asks for `id`: an absent or empty list asks for all.
pub open spec fn selects(ids: Option<Seq<i32>>, id: int) -> bool {
    match ids {
        None => true,
        Some(wanted) => wanted.len() == 0 || exists|k: int|
            0 <= k < wanted.len() && #[trigger] wanted[k] == id,
    }
}

/// The base paths that a list of identifiers asks for.
pub open spec fn selected(ids: Option<Seq<i32>>) -> spec_fn(BasePathView) -> bool {
    |row: BasePathView| selects(ids, row.id)
}

/// The identifiers of a list, as a sequence.
pub open spec fn wanted(ids: Option<Vec<i32>>) -> Option<Seq<i32>> {
    match ids {
        None => None,
        Some(list) => Some(list@),
    }
}

/// Registering a path that is registered already is refused: once a path has been
/// appended, the same path meets `AlreadyExists`.
pub proof fn lemma_same_path_twice(rows: Seq<BasePathView>, row: BasePathView)
    ensures
        overlap(rows.push(row), row.base_path) == Some(Error::AlreadyExists),
{
    assert(rows.push(row)[rows.len() as int] == row);
}

/// A path that lies under a registered path is refused: a path that begins with a
/// registered path, and is not registered itself, meets `IsSubPath`.
pub proof fn lemma_sub_path_refused(rows: Seq<BasePathView>, at: int, path: Seq<char>)
    requires
        0 <= at < rows.len(),
        is_prefix(rows[at].base_path, path),
        !registered(rows, path),
    ensures
        overlap(rows, path) == Some(Error::IsSubPath),
{
    assert(nested(rows[at].base_path, path));
}

/// A path under which a registered path lies is refused: a path that a registered
/// path begins with, and that is not registered itself, meets `IsSubPath`. So two
/// paths of which one lies under the other are refused in either order.
pub proof fn lemma_outer_path_refused(rows: Seq<BasePathView>, at: int, path: Seq<char>)
    requires
        0 <= at < rows.len(),
        is_prefix(path, rows[at].base_path),
        !registered(rows, path),
    ensures
        overlap(rows, path) == Some(Error::IsSubPath),
{
    assert(nested(rows[at].base_path, path));
}

/// A path that collides with no registered path can join them: where no base path
/// lies under another, none does once the path is appended.
pub proof fn lemma_append_keeps_free_of_containment(rows: Seq<BasePathView>, row: BasePathView)
    requires
        free_of_containment(rows),
        overlap(rows, row.base_path) is None,
    ensures
        free_of_containment(rows.push(row)),
{
    let after = rows.push(row);
    assert forall|i: int, j: int|
        0 <= i < after.len() && 0 <= j < after.len() && i != j implies !#[trigger] is_prefix(
        after[i].base_path,
        after[j].base_path,
    ) by {
        if i < rows.len() && j < rows.len() {
            assert(after[i] == rows[i] && after[j] == rows[j]);
        } else if i < rows.len() {
            assert(after[i] == rows[i]);
            assert(!nested(rows[i].base_path, row.base_path));
        } else {
            assert(after[j] == rows[j]);
            assert(!nested(rows[j].base_path, row.base_path));
        }
    }
}

/// Registering keeps the table free of containment: whatever `create` is asked and
/// whatever it answers, a table in which no base path lies under another is one
/// afterwards. `after` is the table as `create` leaves it: unchanged where the
/// request is refused, and with the new row appended where it is accepted.
pub proof fn lemma_create_keeps_free_of_containment(
    store: StoreView,
    base_path: Seq<char>,
    description: Seq<char>,
    on_disk: PathStatus,
    row: BasePathView,
    after: Seq<BasePathView>,
)
    requires
        free_of_containment(store.base_paths),
        row.base_path == normalized_path(base_path),
        after == if create_rejection(store, base_path, description, on_disk) is None {
            store.base_paths.push(row)
        } else {
            store.base_paths
        },
    ensures
        free_of_containment(after),
{
    if create_rejection(store, base_path, description, on_disk) is None {
        lemma_append_keeps_free_of_containment(store.base_paths, row);
    }
}

/// A table without one of its base paths stays free of containment.
pub proof fn lemma_remove_keeps_free_of_containment(rows: Seq<BasePathView>, at: int)
    requires
        free_of_containment(rows),
        0 <= at < rows.len(),
    ensures
        free_of_containment(rows.remove(at)),
{
    let after = rows.remove(at);
    assert forall|i: int, j: int|
        0 <= i < after.len() && 0 <= j < after.len() && i != j implies !#[trigger] is_prefix(
        after[i].base_path,
        after[j].base_path,
    ) by {
        let a = if i < at { i } else { i + 1 };
        let b = if j < at { j } else { j + 1 };
        assert(after[i] == rows[a] && after[j] == rows[b]);
        assert(!is_prefix(rows[a].base_path, rows[b].base_path));
    }
}

/// A base path that keeps its path leaves the table free of containment.
pub proof fn lemma_describe_keeps_free_of_containment(
    rows: Seq<BasePathView>,
    at: int,
    row: BasePathView,
)
    requires
        free_of_containment(rows),
        0 <= at < rows.len(),
        row.base_path == rows[at].base_path,
    ensures
        free_of_containment(rows.update(at, row)),
{
    let after = rows.update(at, row);
    assert forall|i: int, j: int|
        0 <= i < after.len() && 0 <= j < after.len() && i != j implies !#[trigger] is_prefix(
        after[i].base_path,
        after[j].base_path,
    ) by {
        assert(!is_prefix(rows[i].base_path, rows[j].base_path));
    }
}

/// Where no base path lies under another, no two have the same path.
pub proof fn lemma_free_of_containment_is_distinct(rows: Seq<BasePathView>)
    requires
        free_of_containment(rows),
    ensures
        distinct_paths(rows),
{
    assert forall|i: int, j: int| 0 <= i < j < rows.len() implies (#[trigger] rows[i]).base_path != (
    #[trigger] rows[j]).base_path by {
        assert(!is_prefix(rows[i].base_path, rows[j].base_path));
    }
}

/// A path in its stored form does not end with a slash.
pub proof fn lemma_no_trailing_slash(path: Seq<char>)
    ensures
        normalized_path(path).len() > 0 ==> normalized_path(path).last() != '/',
{
    lemma_strip_back_clean(trimmed(path), is_slash());
}

/// A base path cannot be registered twice: once it has been registered and appended,
/// the same request meets `AlreadyExists`.
pub proof fn lemma_create_twice(
    store: StoreView,
    base_path: Seq<char>,
    description: Seq<char>,
    on_disk: PathStatus,
    row: BasePathView,
)
    requires
        create_rejection(store, base_path, description, on_disk) is None,
        row.base_path == normalized_path(base_path),
    ensures
        create_rejection(
            (StoreView { base_paths: store.base_paths.push(row), ..store }),
            base_path,
            description,
            on_disk,
        ) == Some(Error::AlreadyExists),
{
    lemma_same_path_twice(store.base_paths, row);
}

/// No two base paths have the same path.
pub open spec fn distinct_paths(rows: Seq<BasePathView>) -> bool {
    forall|i: int, j: int|
        0 <= i < j < rows.len() ==> (#[trigger] rows[i]).base_path != (#[trigger] rows[j]).base_path
}

/// Registering keeps the paths distinct: a path that collides with none is none of them.
pub proof fn lemma_create_keeps_paths_distinct(rows: Seq<BasePathView>, row: BasePathView)
    requires
        distinct_paths(rows),
        overlap(rows, row.base_path) is None,
    ensures
        distinct_paths(rows.push(row)),
{
    let after = rows.push(row);
    assert forall|i: int, j: int| 0 <= i < j < after.len() implies (#[trigger] after[i]).base_path != (
    #[trigger] after[j]).base_path by {
        assert(after[i] == rows[i]);
        if j < rows.len() {
            assert(after[j] == rows[j]);
        }
    }
}

/// A base path that is found is removed exactly when no media file belongs to it.
pub proof fn lemma_delete_guard(store: StoreView, id: int)
    requires
        lookup_rejection(store.base_paths, id) is None,
    ensures
        in_use(store.media, id) <==> delete_rejection(store, id) == Some(Error::InUse),
        !in_use(store.media, id) <==> delete_rejection(store, id) is None,
{
}

/// A base path that has just been registered is found under its identifier.
pub proof fn lemma_created_is_found(rows: Seq<BasePathView>, row: BasePathView)
    requires
        keyed(rows),
        fresh_key(rows, i32::MAX as int) == Some(row.id),
    ensures
        lookup_rejection(rows.push(row), row.id) is None,
        row_with(rows.push(row), row.id) == row,
{
    lemma_keyed_push(rows, row, i32::MAX as int);
    let after = rows.push(row);
    assert(after[rows.len() as int] == row);
    lemma_row_with(after, rows.len() as int);
}

/// Where the base path `id` stands in `store`, or why it is not found.
pub fn base_paths_locate(store: &Store, id: i32) -> (r: Result<usize, Error>)
    requires
        store@.wf(),
    ensures
        match r {
            Ok(at) => lookup_rejection(store@.base_paths, id as int) is None && at == index_of(
                store@.base_paths,
                id as int,
            ) && at < store@.base_paths.len(),
            Err(e) => lookup_rejection(store@.base_paths, id as int) == Some(e),
        },
{
    if id <= 0 {
        return Err(Error::InvalidID);
    }
    match store.base_path_position(id) {
        Some(at) => {
            proof {
                lemma_row_with(store@.base_paths, at as int);
            }
            Ok(at)
        },
        None => Err(Error::NotFound),
    }
}

impl NewBasePath {
    /// The stored form of a path and its description.
    pub fn normalized(base_path: &str, description: &str) -> (new: NewBasePath)
        ensures
            new.base_path@ == normalized_path(base_path@),
            new.description@ == trimmed(description@),
    {
        let path = trim(base_path);
        NewBasePath {
            base_path: strip_ends(path.as_str(), Strip::Slash, false),
            description: trim(description),
        }
    }
}

impl BasePaths {
    /// How `path` collides with the registered paths: every registered path is
    /// compared with it both ways.
    pub fn collision(&self, store: &Store, path: &str) -> (hit: Option<Error>)
        ensures
            hit == overlap(store@.base_paths, path@),
    {
        let mut touched = false;
        let mut i: usize = 0;
        while i < store.base_paths.len()
            invariant
                i <= store.base_paths.len(),
                forall|j: int| 0 <= j < i ==> (#[trigger] store@.base_paths[j]).base_path != path@,
                touched == exists|j: int|
                    0 <= j < i && #[trigger] nested(store@.base_paths[j].base_path, path@),
            decreases store.base_paths.len() - i,
        {
            let existing = &store.base_paths[i];
            assert(store@.base_paths[i as int].base_path == existing.base_path@);
            if same(existing.base_path.as_str(), path) {
                return Some(Error::AlreadyExists);
            }
            let here = starts_with(path, existing.base_path.as_str()) || starts_with(
                existing.base_path.as_str(),
                path,
            );
            assert(here == nested(store@.base_paths[i as int].base_path, path@));
            touched = touched || here;
            i += 1;
        }
        if touched {
            Some(Error::IsSubPath)
        } else {
            None
        }
    }

    /// Registers a base path. `on_disk` is what the file system says of the path in
    /// its stored form.
    ///
    /// The checks are made in the order of [`create_rejection`]. A refused path leaves
    /// the tables as they were; an accepted one is appended under the next identifier.
    pub fn create(
        &self,
        store: &mut Store,
        base_path: &str,
        description: &str,
        on_disk: PathStatus,
    ) -> (r: Result<BasePath, Error>)
        requires
            old(store)@.wf(),
        ensures
            final(store)@.wf(),
            free_of_containment(old(store)@.base_paths) ==> free_of_containment(
                final(store)@.base_paths,
            ),
            match r {
                Ok(row) => create_rejection(old(store)@, base_path@, description@, on_disk) is None
                    && row@ == (BasePathView {
                    id: fresh_key(old(store)@.base_paths, i32::MAX as int)->0,
                    base_path: normalized_path(base_path@),
                    description: trimmed(description@),
                }) && final(store)@ == (StoreView {
                    base_paths: old(store)@.base_paths.push(row@),
                    ..old(store)@
                }),
                Err(e) => create_rejection(old(store)@, base_path@, description@, on_disk) == Some(e)
                    && final(store)@ == old(store)@,
            },
    {
        let new = NewBasePath::normalized(base_path, description);
        if char_count(new.base_path.as_str()) == 0 {
            return Err(Error::InvalidPath);
        }
        if grapheme_count(new.description.as_str()) > MAX_DESCRIPTION_LENGTH {
            return Err(Error::DescriptionTooLong);
        }
        if !on_disk.exists {
            return Err(Error::NotExists);
        }
        if !on_disk.is_directory {
            return Err(Error::NotADirectory);
        }
        if !on_disk.is_absolute {
            return Err(Error::NotAbsolute);
        }
        if let Some(hit) = self.collision(store, new.base_path.as_str()) {
            return Err(hit);
        }
        let mut row = BasePath { id: 0, base_path: new.base_path, description: new.description };
        match store.insert_base_path(row.clone()) {
            Ok(id) => {
                row.id = id;
                proof {
                    if free_of_containment(old(store)@.base_paths) {
                        lemma_append_keeps_free_of_containment(old(store)@.base_paths, row@);
                    }
                }
                Ok(row)
            },
            Err(e) => Err(Error::DatabaseError(e)),
        }
    }

    /// Where the base path `id` stands, or why it is not found.
    pub fn locate(&self, store: &Store, id: i32) -> (r: Result<usize, Error>)
        requires
            store@.wf(),
        ensures
            match r {
                Ok(at) => lookup_rejection(store@.base_paths, id as int) is None && at == index_of(
                    store@.base_paths,
                    id as int,
                ) && at < store@.base_paths.len(),
                Err(e) => lookup_rejection(store@.base_paths, id as int) == Some(e),
            },
    {
        base_paths_locate(store, id)
    }

    /// The base path with the identifier `id`.
    pub fn get(&self, store: &Store, id: i32) -> (r: Result<BasePath, Error>)
        requires
            store@.wf(),
        ensures
            match r {
                Ok(row) => lookup_rejection(store@.base_paths, id as int) is None && row@
                    == row_with(store@.base_paths, id as int),
                Err(e) => lookup_rejection(store@.base_paths, id as int) == Some(e),
            },
    {
        match self.locate(store, id) {
            Ok(at) => Ok(store.base_paths[at].clone()),
            Err(e) => Err(e),
        }
    }

    /// Gives the base path `id` a new description, trimmed. One of more than 300
    /// characters is refused.
    pub fn update_description(&self, store: &mut Store, id: i32, new_description: &str) -> (r:
        Result<(), Error>)
        requires
            old(store)@.wf(),
        ensures
            final(store)@.wf(),
            free_of_containment(old(store)@.base_paths) ==> free_of_containment(
                final(store)@.base_paths,
            ),
            match r {
                Ok(_) => describe_rejection(old(store)@.base_paths, id as int, new_description@)
                    is None && final(store)@ == (StoreView {
                    base_paths: old(store)@.base_paths.update(
                        index_of(old(store)@.base_paths, id as int),
                        (BasePathView {
                            description: trimmed(new_description@),
                            ..row_with(old(store)@.base_paths, id as int)
                        }),
                    ),
                    ..old(store)@
                }),
                Err(e) => final(store)@ == old(store)@ && describe_rejection(
                    old(store)@.base_paths,
                    id as int,
                    new_description@,
                ) == Some(e),
            },
    {
        let at: usize = match self.locate(store, id) {
            Ok(at) => at,
            Err(e) => {
                return Err(e);
            },
        };
        let description = trim(new_description);
        if char_count(description.as_str()) > MAX_DESCRIPTION_LENGTH {
            return Err(Error::DescriptionTooLong);
        }
        let row = BasePath { id, base_path: store.base_paths[at].base_path.clone(), description };
        proof {
            if free_of_containment(store@.base_paths) {
                lemma_describe_keeps_free_of_containment(store@.base_paths, at as int, row@);
            }
        }
        store.replace_base_path(at, row);
        Ok(())
    }

    /// The base paths that `ids` asks for, in ascending order of their identifiers.
    /// Without a list, or with an empty one, these are all base paths.
    pub fn list(&self, store: &Store, ids: Option<Vec<i32>>) -> (r: Result<Vec<BasePath>, Error>)
        ensures
            r is Ok,
            views(r->Ok_0@) == store@.base_paths.filter(selected(wanted(ids))),
            store@.wf() ==> keyed(views(r->Ok_0@)),
    {
        let ghost pred = selected(wanted(ids));
        proof {
            if store@.wf() {
                lemma_keyed_filter(store@.base_paths, pred);
            }
        }
        let mut found: Vec<BasePath> = Vec::new();
        let mut i: usize = 0;
        proof {
            reveal(Seq::filter);
            assert(store@.base_paths.take(0).filter(pred) =~= views(found@));
        }
        while i < store.base_paths.len()
            invariant
                i <= store.base_paths.len(),
                pred == selected(wanted(ids)),
                views(found@) == store@.base_paths.take(i as int).filter(pred),
            decreases store.base_paths.len() - i,
        {
            let row = &store.base_paths[i];
            let keep = match &ids {
                None => true,
                Some(list) => list.len() == 0 || holds(list, row.id),
            };
            proof {
                lemma_filter_step(store@.base_paths, i as int, pred);
                assert(store@.base_paths[i as int] == row@);
                assert(keep == pred(row@));
            }
            if keep {
                let ghost before = found@;
                found.push(row.clone());
                assert(views(found@) =~= views(before).push(row@));
            }
            i += 1;
        }
        assert(store@.base_paths.take(i as int) =~= store@.base_paths);
        Ok(found)
    }

    /// Removes the base path `id`, unless media files still belong to it.
    pub fn delete(&self, store: &mut Store, id: i32) -> (r: Result<(), Error>)
        requires
            old(store)@.wf(),
        ensures
            final(store)@.wf(),
            free_of_containment(old(store)@.base_paths) ==> free_of_containment(
                final(store)@.base_paths,
            ),
            match r {
                Ok(_) => delete_rejection(old(store)@, id as int) is None && final(store)@ == (
                StoreView {
                    base_paths: old(store)@.base_paths.remove(
                        index_of(old(store)@.base_paths, id as int),
                    ),
                    ..old(store)@
                }),
                Err(e) => final(store)@ == old(store)@ && delete_rejection(old(store)@, id as int)
                    == Some(e),
            },
    {
        let at: usize = match self.locate(store, id) {
            Ok(at) => at,
            Err(e) => {
                return Err(e);
            },
        };
        if self.has_media(store, id) {
            return Err(Error::InUse);
        }
        proof {
            if free_of_containment(store@.base_paths) {
                lemma_remove_keeps_free_of_containment(store@.base_paths, at as int);
            }
        }
        store.remove_base_path(at);
        Ok(())
    }

    /// Whether a media file belongs to the base path `id`.
    pub fn has_media(&self, store: &Store, id: i32) -> (used: bool)
        ensures
            used == in_use(store@.media, id as int),
    {
        let mut i: usize = 0;
        while i < store.media.len()
            invariant
                i <= store.media.len(),
                forall|j: int| 0 <= j < i ==> (#[trigger] store@.media[j]).base_path_id != id,
            decreases store.media.len() - i,
        {
            if store.media[i].base_path_id == id {
                assert(store@.media[i as int].base_path_id == id);
                return true;
            }
            i += 1;
        }
        false
    }
}

/// Whether `id` is among `list`.
pub fn holds(list: &Vec<i32>, id: i32) -> (found: bool)
    ensures
        found == exists|k: int| 0 <= k < list@.len() && #[trigger] list@[k] == id,
{
    let mut k: usize = 0;
    while k < list.len()
        invariant
            k <= list.len(),
            forall|j: int| 0 <= j < k ==> #[trigger] list@[j] != id,
        decreases list.len() - k,
    {
        if list[k] == id {
            return true;
        }
        k += 1;
    }
    false
}

} // verus!
