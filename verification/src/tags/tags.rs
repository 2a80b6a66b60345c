//! The registry of tags.

use crate::data::tag::{Tag, TagView};
use crate::data::tag_category::CategoryView;
use crate::database::connection::DatabaseConnection;
use crate::database::store::{
    fresh_key, has_key, index_of, keyed, lemma_filter_step, lemma_keyed_push, lemma_row_with,
    row_with, views, Store, StoreError, StoreView,
};
use crate::tags::category::{or_kept, text_view};
use crate::text::{
    ascii_lowercase, char_count, comes_first, grapheme_clusters, grapheme_count, is_prefix,
    is_space, lemma_precedes_total, lemma_precedes_transitive, lemma_strip_again,
    lemma_trimmed_is_no_longer, precedes, same,
    starts_with, to_ascii_lowercase, trim, trimmed,
};
use vstd::prelude::*;
use vstd::seq_lib::group_to_multiset_ensures;

verus! {

/// The most characters that a name may have.
pub const MAX_NAME_LENGTH: usize = 50;

/// The most characters that a description may have.
pub const MAX_DESCRIPTION_LENGTH: usize = 300;

/// The fewest grapheme clusters that a name to search for may have.
pub const MIN_SEARCH_LENGTH: usize = 3;

/// The registry of tags.
#[derive(Debug)]
pub struct Tags {
    pub connection: DatabaseConnection,
}

/// The registry of tags of the catalogue behind `connection`.
pub fn tags(connection: DatabaseConnection) -> (registry: Tags)
    ensures
        registry.connection == connection,
{
    Tags { connection }
}

/// Why the registry of tags refused an operation.
#[derive(Clone, Copy, Debug, PartialEq, Eq)]
pub enum Error {
    /// The tables refused the row.
    DatabaseError(StoreError),
    /// The identifier of the category is zero or negative.
    InvalidCategoryID,
    /// No category has the identifier.
    CategoryNotFound,
    /// The identifier is zero or negative.
    InvalidID,
    /// The name is empty, or too short to search for.
    InvalidName,
    /// The name is longer than 50.
    NameTooLong,
    /// The description is longer than 300.
    DescriptionTooLong,
    /// No tag has the identifier.
    NotFound,
    /// The category has a tag of this name already.
    AlreadyExists,
}

/// The fields of a tag to change; a field that is `None` keeps its value.
pub struct UpdateTag<'a> {
    /// The new name.
    pub name: Option<&'a str>,
    /// The new category.
    pub category_id: Option<i32>,
    /// The new description.
    pub description: Option<&'a str>,
}

/// A tag to create.
#[derive(Debug)]
pub struct CreateTag {
    /// The name of the tag.
    pub name: String,
    /// The category that the tag will belong to.
    pub category_id: i32,
    /// The description.
    pub description: String,
}

/// `row` with the fields that are given, and its other fields as they are.
pub open spec fn merged(
    row: TagView,
    name: Option<Seq<char>>,
    category_id: Option<i32>,
    description: Option<Seq<char>>,
) -> TagView {
    TagView {
        id: row.id,
        name: or_kept(name, row.name),
        category_id: match category_id {
            None => row.category_id,
            Some(category) => category as int,
        },
        description: or_kept(description, row.description),
    }
}

/// `row` in its stored form: name and description trimmed.
pub open spec fn cleaned(row: TagView) -> TagView {
    TagView {
        id: row.id,
        name: trimmed(row.name),
        category_id: row.category_id,
        description: trimmed(row.description),
    }
}

/// What is wrong with a tag, if anything: the first check that fails.
pub open spec fn invalid(row: TagView, categories: Seq<CategoryView>) -> Option<Error> {
    if row.category_id <= 0 {
        Some(Error::InvalidCategoryID)
    } else if !has_key(categories, row.category_id) {
        Some(Error::CategoryNotFound)
    } else if row.name.len() == 0 {
        Some(Error::InvalidName)
    } else if row.name.len() > MAX_NAME_LENGTH {
        Some(Error::NameTooLong)
    } else if row.description.len() > MAX_DESCRIPTION_LENGTH {
        Some(Error::DescriptionTooLong)
    } else {
        None
    }
}

/// Whether a tag of the category `category_id` has the name `name`.
pub open spec fn taken(rows: Seq<TagView>, name: Seq<char>, category_id: int) -> bool {
    exists|i: int|
        0 <= i < rows.len() && (#[trigger] rows[i]).name == name && rows[i].category_id
            == category_id
}

/// The tag that a request to create stands for, before it is stored.
pub open spec fn requested(name: Seq<char>, category_id: int, description: Seq<char>) -> TagView {
    cleaned(TagView { id: 0, name, category_id, description })
}

/// Why a tag is not created, if it is not: the first check that fails.
pub open spec fn create_rejection(
    store: StoreView,
    name: Seq<char>,
    category_id: int,
    description: Seq<char>,
) -> Option<Error> {
    let row = requested(name, category_id, description);
    if invalid(row, store.categories) is Some {
        invalid(row, store.categories)
    } else if taken(store.tags, row.name, row.category_id) {
        Some(Error::AlreadyExists)
    } else if fresh_key(store.tags, i32::MAX as int) is None {
        Some(Error::DatabaseError(StoreError::Exhausted))
    } else {
        None
    }
}

/// Why no tag is found under `id`, if none is.
pub open spec fn lookup_rejection(rows: Seq<TagView>, id: int) -> Option<Error> {
    if id <= 0 {
        Some(Error::InvalidID)
    } else if !has_key(rows, id) {
        Some(Error::NotFound)
    } else {
        None
    }
}

/// What the tag `id` becomes by an update, in its stored form.
pub open spec fn updated(
    rows: Seq<TagView>,
    id: int,
    name: Option<Seq<char>>,
    category_id: Option<i32>,
    description: Option<Seq<char>>,
) -> TagView {
    cleaned(merged(row_with(rows, id), name, category_id, description))
}

/// Whether a tag changes its name or its category.
pub open spec fn renamed(before: TagView, after: TagView) -> bool {
    before.name != after.name || before.category_id != after.category_id
}

/// Whether the tag `id` cannot become `row` because of its name: it changes its name
/// or its category, and the new name is taken in the new category. A tag that keeps
/// both is not held against itself.
pub open spec fn collides(rows: Seq<TagView>, id: int, row: TagView) -> bool {
    renamed(row_with(rows, id), row) && taken(rows, row.name, row.category_id)
}

/// Whether a tag with another identifier than `id` has the name `name` in the
/// category `category_id`.
pub open spec fn taken_by_another(
    rows: Seq<TagView>,
    id: int,
    name: Seq<char>,
    category_id: int,
) -> bool {
    exists|i: int|
        0 <= i < rows.len() && (#[trigger] rows[i]).id != id && rows[i].name == name
            && rows[i].category_id == category_id
}

/// Why a tag is not updated, if it is not: it is looked up, merged, checked as a whole,
/// and its name must not be taken in its category by another tag.
pub open spec fn update_rejection(
    store: StoreView,
    id: int,
    name: Option<Seq<char>>,
    category_id: Option<i32>,
    description: Option<Seq<char>>,
) -> Option<Error> {
    let row = updated(store.tags, id, name, category_id, description);
    if lookup_rejection(store.tags, id) is Some {
        lookup_rejection(store.tags, id)
    } else if invalid(row, store.categories) is Some {
        invalid(row, store.categories)
    } else if collides(store.tags, id, row) {
        Some(Error::AlreadyExists)
    } else {
        None
    }
}

/// Why the tags of a category are not listed, if they are not.
pub open spec fn list_rejection(categories: Seq<CategoryView>, category: Option<i32>) -> Option<
    Error,
> {
    match category {
        None => None,
        Some(id) => if id <= 0 {
            Some(Error::InvalidCategoryID)
        } else if !has_key(categories, id as int) {
            Some(Error::CategoryNotFound)
        } else {
            None
        },
    }
}

/// The tags of a category; without a category, all tags.
pub open spec fn in_category(category: Option<i32>) -> spec_fn(TagView) -> bool {
    |row: TagView|
        match category {
            None => true,
            Some(id) => row.category_id == id,
        }
}

/// The tags whose name begins with `name`, trimmed, ASCII letter case aside.
pub open spec fn named_like(name: Seq<char>) -> spec_fn(TagView) -> bool {
    |row: TagView| is_prefix(ascii_lowercase(trimmed(name)), ascii_lowercase(row.name))
}

/// The tags are in ascending order of their names.
pub open spec fn by_name(rows: Seq<TagView>) -> bool {
    forall|i: int, j: int|
        0 <= i < j < rows.len() ==> precedes((#[trigger] rows[i]).name, (#[trigger] rows[j]).name)
}

/// A patch without fields changes nothing.
pub proof fn lemma_empty_patch(row: TagView)
    ensures
        merged(row, None, None, None) == row,
{
}

/// A patch changes the fields that it gives and no others.
pub proof fn lemma_patch_fields(
    row: TagView,
    name: Option<Seq<char>>,
    category_id: Option<i32>,
    description: Option<Seq<char>>,
)
    ensures
        merged(row, name, category_id, description).id == row.id,
        name is None ==> merged(row, name, category_id, description).name == row.name,
        name is Some ==> merged(row, name, category_id, description).name == name->0,
        category_id is None ==> merged(row, name, category_id, description).category_id
            == row.category_id,
        category_id is Some ==> merged(row, name, category_id, description).category_id
            == category_id->0,
        description is None ==> merged(row, name, category_id, description).description
            == row.description,
        description is Some ==> merged(row, name, category_id, description).description
            == description->0,
{
}

/// A tag cannot be created twice: once it has been created and appended, the same
/// request meets `AlreadyExists`.
pub proof fn lemma_create_twice(
    store: StoreView,
    name: Seq<char>,
    category_id: int,
    description: Seq<char>,
    row: TagView,
)
    requires
        create_rejection(store, name, category_id, description) is None,
        row.name == trimmed(name),
        row.category_id == category_id,
    ensures
        create_rejection(
            (StoreView { tags: store.tags.push(row), ..store }),
            name,
            category_id,
            description,
        ) == Some(Error::AlreadyExists),
{
    let after = store.tags.push(row);
    assert(after[store.tags.len() as int] == row);
}

/// Bringing a tag into its stored form twice is bringing it there once.
pub proof fn lemma_clean_twice(row: TagView)
    ensures
        cleaned(cleaned(row)) == cleaned(row),
{
    lemma_strip_again(row.name, is_space());
    lemma_strip_again(row.description, is_space());
}

/// No two tags of one category have the same name.
pub open spec fn distinct_names(rows: Seq<TagView>) -> bool {
    forall|i: int, j: int|
        0 <= i < j < rows.len() ==> !((#[trigger] rows[i]).name == (#[trigger] rows[j]).name
            && rows[i].category_id == rows[j].category_id)
}

/// Creating keeps the names distinct: a name that is not taken is no other tag's.
pub proof fn lemma_create_keeps_names_distinct(rows: Seq<TagView>, row: TagView)
    requires
        distinct_names(rows),
        !taken(rows, row.name, row.category_id),
    ensures
        distinct_names(rows.push(row)),
{
    let after = rows.push(row);
    assert forall|i: int, j: int| 0 <= i < j < after.len() implies !((#[trigger] after[i]).name == (
    #[trigger] after[j]).name && after[i].category_id == after[j].category_id) by {
        assert(after[i] == rows[i]);
        if j < rows.len() {
            assert(after[j] == rows[j]);
        }
    }
}

/// Updating keeps the names distinct: the tag takes the place of its row, and either
/// keeps its name and category or takes a name that is not taken.
pub proof fn lemma_update_keeps_names_distinct(rows: Seq<TagView>, at: int, row: TagView)
    requires
        distinct_names(rows),
        0 <= at < rows.len(),
        !renamed(rows[at], row) || !taken(rows, row.name, row.category_id),
    ensures
        distinct_names(rows.update(at, row)),
{
    let after = rows.update(at, row);
    assert forall|i: int, j: int| 0 <= i < j < after.len() implies !((#[trigger] after[i]).name == (
    #[trigger] after[j]).name && after[i].category_id == after[j].category_id) by {
        assert(!(rows[i].name == rows[j].name && rows[i].category_id == rows[j].category_id));
        if i != at && j != at {
            assert(after[i] == rows[i] && after[j] == rows[j]);
        } else if i == at {
            assert(after[j] == rows[j]);
        } else {
            assert(after[i] == rows[i]);
        }
    }
}

/// A table without one of its tags keeps the names distinct.
pub proof fn lemma_remove_keeps_names_distinct(rows: Seq<TagView>, at: int)
    requires
        distinct_names(rows),
        0 <= at < rows.len(),
    ensures
        distinct_names(rows.remove(at)),
{
    let after = rows.remove(at);
    assert forall|i: int, j: int| 0 <= i < j < after.len() implies !((#[trigger] after[i]).name == (
    #[trigger] after[j]).name && after[i].category_id == after[j].category_id) by {
        let a = if i < at { i } else { i + 1 };
        let b = if j < at { j } else { j + 1 };
        assert(after[i] == rows[a] && after[j] == rows[b]);
        assert(!(rows[a].name == rows[b].name && rows[a].category_id == rows[b].category_id));
    }
}

/// Where no two tags of a category have the same name, a name is held against a tag
/// exactly when a tag with another identifier has it in that category.
pub proof fn lemma_collides_with_another(rows: Seq<TagView>, id: int, row: TagView)
    requires
        keyed(rows),
        distinct_names(rows),
        lookup_rejection(rows, id) is None,
    ensures
        collides(rows, id, row) <==> taken_by_another(rows, id, row.name, row.category_id),
{
    let at = index_of(rows, id);
    lemma_row_with(rows, at);
    if collides(rows, id, row) {
        let i = choose|i: int|
            0 <= i < rows.len() && (#[trigger] rows[i]).name == row.name && rows[i].category_id
                == row.category_id;
        if rows[i].id == id {
            lemma_row_with(rows, i);
        }
        assert(rows[i].id != id);
    }
    if taken_by_another(rows, id, row.name, row.category_id) {
        let i = choose|i: int|
            0 <= i < rows.len() && (#[trigger] rows[i]).id != id && rows[i].name == row.name
                && rows[i].category_id == row.category_id;
        assert(i != at);
        if i < at {
            assert(!(rows[i].name == rows[at].name && rows[i].category_id == rows[at].category_id));
        } else {
            assert(!(rows[at].name == rows[i].name && rows[at].category_id == rows[i].category_id));
        }
    }
}

/// An update without fields succeeds on a valid tag whose name is in its stored
/// form. It trims the description and changes nothing else, so it leaves a tag in
/// its stored form, and with it the tags, as they are.
pub proof fn lemma_update_nothing(store: StoreView, id: int)
    requires
        keyed(store.tags),
        lookup_rejection(store.tags, id) is None,
        trimmed(row_with(store.tags, id).name) == row_with(store.tags, id).name,
        invalid(row_with(store.tags, id), store.categories) is None,
    ensures
        update_rejection(store, id, None, None, None) is None,
        updated(store.tags, id, None, None, None) == (TagView {
            description: trimmed(row_with(store.tags, id).description),
            ..row_with(store.tags, id)
        }),
        cleaned(row_with(store.tags, id)) == row_with(store.tags, id) ==> store.tags.update(
            index_of(store.tags, id),
            updated(store.tags, id, None, None, None),
        ) == store.tags,
{
    let at = index_of(store.tags, id);
    lemma_row_with(store.tags, at);
    lemma_trimmed_is_no_longer(store.tags[at].description);
    assert(store.tags.update(at, store.tags[at]) =~= store.tags);
}

/// An update of the description alone succeeds on a valid tag whose name is in its
/// stored form, and changes the description and nothing else.
pub proof fn lemma_update_description(store: StoreView, id: int, description: Seq<char>)
    requires
        lookup_rejection(store.tags, id) is None,
        trimmed(row_with(store.tags, id).name) == row_with(store.tags, id).name,
        invalid(row_with(store.tags, id), store.categories) is None,
        trimmed(description).len() <= MAX_DESCRIPTION_LENGTH,
    ensures
        update_rejection(store, id, None, None, Some(description)) is None,
        updated(store.tags, id, None, None, Some(description)) == (TagView {
            description: trimmed(description),
            ..row_with(store.tags, id)
        }),
{
}

/// A tag that has just been created is found under its identifier.
pub proof fn lemma_created_is_found(rows: Seq<TagView>, row: TagView)
    requires
        keyed(rows),
        fresh_key(rows, i32::MAX as int) == Some(row.id),
    ensures
        lookup_rejection(rows.push(row), row.id) is None,
        row_with(rows.push(row), row.id) == row,
{
    lemma_keyed_push(rows, row, i32::MAX as int);
    let after = rows.push(row);
    assert(after[rows.len() as int] == row);
    lemma_row_with(after, rows.len() as int);
}

impl Default for UpdateTag<'_> {
    fn default() -> (patch: Self)
        ensures
            patch.name is None,
            patch.category_id is None,
            patch.description is None,
    {
        UpdateTag { name: None, category_id: None, description: None }
    }
}

impl Tag {
    /// Checks the tag against the categories of `store`, in the order of [`invalid`],
    /// and hands it back if it is valid.
    pub fn validate(self, store: &Store) -> (r: Result<Self, Error>)
        ensures
            match r {
                Ok(row) => invalid(self@, store@.categories) is None && row == self,
                Err(e) => invalid(self@, store@.categories) == Some(e),
            },
    {
        if self.category_id <= 0 {
            return Err(Error::InvalidCategoryID);
        }
        if store.category_position(self.category_id).is_none() {
            return Err(Error::CategoryNotFound);
        }
        let length: usize = char_count(self.name.as_str());
        if length == 0 {
            return Err(Error::InvalidName);
        }
        if length > MAX_NAME_LENGTH {
            return Err(Error::NameTooLong);
        }
        if char_count(self.description.as_str()) > MAX_DESCRIPTION_LENGTH {
            return Err(Error::DescriptionTooLong);
        }
        Ok(self)
    }

    /// The tag in its stored form.
    pub fn clean(self) -> (row: Self)
        ensures
            row@ == cleaned(self@),
    {
        Tag {
            id: self.id,
            name: trim(self.name.as_str()),
            category_id: self.category_id,
            description: trim(self.description.as_str()),
        }
    }

    /// The tag with the fields that `new_data` gives.
    pub fn with_new_data(self, new_data: UpdateTag) -> (row: Self)
        ensures
            row@ == merged(
                self@,
                text_view(new_data.name),
                new_data.category_id,
                text_view(new_data.description),
            ),
    {
        Tag {
            id: self.id,
            name: match new_data.name {
                Some(name) => name.to_owned(),
                None => self.name,
            },
            category_id: match new_data.category_id {
                Some(category) => category,
                None => self.category_id,
            },
            description: match new_data.description {
                Some(description) => description.to_owned(),
                None => self.description,
            },
        }
    }
}

impl CreateTag {
    /// The request that would create `tag`.
    pub fn from_tag(tag: Tag) -> (request: Self)
        ensures
            request.name@ == tag.name@,
            request.category_id == tag.category_id,
            request.description@ == tag.description@,
    {
        CreateTag { name: tag.name, category_id: tag.category_id, description: tag.description }
    }

    /// The tag that this request stands for, not yet stored.
    pub fn into_tag(self) -> (row: Tag)
        ensures
            row@ == (TagView {
                id: 0,
                name: self.name@,
                category_id: self.category_id as int,
                description: self.description@,
            }),
    {
        Tag { id: 0, name: self.name, category_id: self.category_id, description: self.description }
    }
}

/// The tags of `rows`, in ascending order of their names.
pub fn sorted_by_name(rows: Vec<Tag>) -> (sorted: Vec<Tag>)
    ensures
        by_name(views(sorted@)),
        views(sorted@).to_multiset() == views(rows@).to_multiset(),
{
    let mut sorted: Vec<Tag> = Vec::new();
    let mut i: usize = 0;
    assert(views(rows@).take(0) =~= views(sorted@));
    while i < rows.len()
        invariant
            i <= rows.len(),
            by_name(views(sorted@)),
            views(sorted@).to_multiset() == views(rows@).take(i as int).to_multiset(),
        decreases rows.len() - i,
    {
        let row = rows[i].clone();
        let mut at: usize = 0;
        while at < sorted.len() && comes_first(sorted[at].name.as_str(), row.name.as_str())
            invariant
                at <= sorted.len(),
                forall|j: int| 0 <= j < at ==> precedes((#[trigger] views(sorted@)[j]).name, row@.name),
            decreases sorted.len() - at,
        {
            at += 1;
        }
        let ghost before = views(sorted@);
        proof {
            broadcast use group_to_multiset_ensures;

            let after = before.insert(at as int, row@);
            assert forall|a: int, b: int| 0 <= a < b < after.len() implies precedes(
                (#[trigger] after[a]).name,
                (#[trigger] after[b]).name,
            ) by {
                if b < at {
                    assert(after[a] == before[a] && after[b] == before[b]);
                } else if b == at {
                    assert(after[a] == before[a]);
                } else {
                    assert(after[b] == before[b - 1]);
                    if a < at {
                        assert(after[a] == before[a]);
                    } else if a == at {
                        lemma_precedes_total(before[at as int].name, row@.name);
                        if b - 1 > at {
                            assert(precedes(before[at as int].name, before[b - 1].name));
                            lemma_precedes_transitive(
                                row@.name,
                                before[at as int].name,
                                before[b - 1].name,
                            );
                        }
                    } else {
                        assert(after[a] == before[a - 1]);
                    }
                }
            }
            assert(views(rows@).take(i + 1) =~= views(rows@).take(i as int).push(row@));
        }
        sorted.insert(at, row);
        assert(views(sorted@) =~= before.insert(at as int, row@));
        i += 1;
    }
    assert(views(rows@).take(i as int) =~= views(rows@));
    sorted
}

impl Tags {
    /// Whether a tag of the category `category_id` has the name `name`.
    pub fn already_exists(&self, store: &Store, name: &str, category_id: i32) -> (exists: bool)
        ensures
            exists == taken(store@.tags, name@, category_id as int),
    {
        let mut i: usize = 0;
        while i < store.tags.len()
            invariant
                i <= store.tags.len(),
                forall|j: int|
                    0 <= j < i ==> !((#[trigger] store@.tags[j]).name == name@
                        && store@.tags[j].category_id == category_id),
            decreases store.tags.len() - i,
        {
            let row = &store.tags[i];
            if row.category_id == category_id && same(row.name.as_str(), name) {
                assert(store@.tags[i as int].name == name@);
                return true;
            }
            i += 1;
        }
        false
    }

    /// Creates a tag. The request is brought into its stored form and checked in the
    /// order of [`create_rejection`]; a refused tag leaves the tables as they were.
    pub fn create(&self, store: &mut Store, data: CreateTag) -> (r: Result<Tag, Error>)
        requires
            old(store)@.wf(),
        ensures
            final(store)@.wf(),
            distinct_names(old(store)@.tags) ==> distinct_names(final(store)@.tags),
            match r {
                Ok(row) => create_rejection(
                    old(store)@,
                    data.name@,
                    data.category_id as int,
                    data.description@,
                ) is None && row@ == (TagView {
                    id: fresh_key(old(store)@.tags, i32::MAX as int)->0,
                    ..requested(data.name@, data.category_id as int, data.description@)
                }) && final(store)@ == (StoreView {
                    tags: old(store)@.tags.push(row@),
                    ..old(store)@
                }),
                Err(e) => create_rejection(
                    old(store)@,
                    data.name@,
                    data.category_id as int,
                    data.description@,
                ) == Some(e) && final(store)@ == old(store)@,
            },
    {
        let mut row = match data.into_tag().clean().validate(store) {
            Ok(row) => row,
            Err(e) => {
                return Err(e);
            },
        };
        if self.already_exists(store, row.name.as_str(), row.category_id) {
            return Err(Error::AlreadyExists);
        }
        match store.insert_tag(row.clone()) {
            Ok(id) => {
                row.id = id;
                proof {
                    if distinct_names(old(store)@.tags) {
                        lemma_create_keeps_names_distinct(old(store)@.tags, row@);
                    }
                }
                Ok(row)
            },
            Err(e) => Err(Error::DatabaseError(e)),
        }
    }

    /// Where the tag `id` stands, or why it is not found.
    pub fn locate(&self, store: &Store, id: i32) -> (r: Result<usize, Error>)
        requires
            store@.wf(),
        ensures
            match r {
                Ok(at) => lookup_rejection(store@.tags, id as int) is None && at == index_of(
                    store@.tags,
                    id as int,
                ) && at < store@.tags.len(),
                Err(e) => lookup_rejection(store@.tags, id as int) == Some(e),
            },
    {
        if id <= 0 {
            return Err(Error::InvalidID);
        }
        match store.tag_position(id) {
            Some(at) => {
                proof {
                    lemma_row_with(store@.tags, at as int);
                }
                Ok(at)
            },
            None => Err(Error::NotFound),
        }
    }

    /// The tag with the identifier `id`.
    pub fn get(&self, store: &Store, id: i32) -> (r: Result<Tag, Error>)
        requires
            store@.wf(),
        ensures
            match r {
                Ok(row) => lookup_rejection(store@.tags, id as int) is None && row@ == row_with(
                    store@.tags,
                    id as int,
                ),
                Err(e) => lookup_rejection(store@.tags, id as int) == Some(e),
            },
    {
        match self.locate(store, id) {
            Ok(at) => Ok(store.tags[at].clone()),
            Err(e) => Err(e),
        }
    }

    /// Changes the fields of the tag `id` that `new_data` gives. The tag is merged,
    /// brought into its stored form and checked in the order of [`update_rejection`];
    /// a refused update leaves the tables as they were. A tag that keeps its name and
    /// its category is not held against itself.
    pub fn update(&self, store: &mut Store, id: i32, new_data: UpdateTag) -> (r: Result<(), Error>)
        requires
            old(store)@.wf(),
        ensures
            final(store)@.wf(),
            distinct_names(old(store)@.tags) ==> distinct_names(final(store)@.tags),
            match r {
                Ok(_) => update_rejection(
                    old(store)@,
                    id as int,
                    text_view(new_data.name),
                    new_data.category_id,
                    text_view(new_data.description),
                ) is None && final(store)@ == (StoreView {
                    tags: old(store)@.tags.update(
                        index_of(old(store)@.tags, id as int),
                        updated(
                            old(store)@.tags,
                            id as int,
                            text_view(new_data.name),
                            new_data.category_id,
                            text_view(new_data.description),
                        ),
                    ),
                    ..old(store)@
                }),
                Err(e) => final(store)@ == old(store)@ && update_rejection(
                    old(store)@,
                    id as int,
                    text_view(new_data.name),
                    new_data.category_id,
                    text_view(new_data.description),
                ) == Some(e),
            },
    {
        let at: usize = match self.locate(store, id) {
            Ok(at) => at,
            Err(e) => {
                return Err(e);
            },
        };
        let current = store.tags[at].clone();
        let row = match current.with_new_data(new_data).clean().validate(store) {
            Ok(row) => row,
            Err(e) => {
                return Err(e);
            },
        };
        let stored = &store.tags[at];
        let renamed = row.category_id != stored.category_id || !same(
            row.name.as_str(),
            stored.name.as_str(),
        );
        if renamed && self.already_exists(store, row.name.as_str(), row.category_id) {
            return Err(Error::AlreadyExists);
        }
        proof {
            if distinct_names(store@.tags) {
                lemma_update_keeps_names_distinct(store@.tags, at as int, row@);
            }
        }
        store.replace_tag(at, row);
        Ok(())
    }

    /// The tags of the category `category`, or all tags without one, in ascending
    /// order of their names. The category must be one of the catalogue.
    pub fn list(&self, store: &Store, category: Option<i32>) -> (r: Result<Vec<Tag>, Error>)
        ensures
            match r {
                Ok(found) => list_rejection(store@.categories, category) is None && by_name(
                    views(found@),
                ) && views(found@).to_multiset() == store@.tags.filter(
                    in_category(category),
                ).to_multiset(),
                Err(e) => list_rejection(store@.categories, category) == Some(e),
            },
    {
        if let Some(id) = category {
            if id <= 0 {
                return Err(Error::InvalidCategoryID);
            }
            if store.category_position(id).is_none() {
                return Err(Error::CategoryNotFound);
            }
        }
        let ghost pred = in_category(category);
        let mut found: Vec<Tag> = Vec::new();
        let mut i: usize = 0;
        proof {
            reveal(Seq::filter);
            assert(store@.tags.take(0).filter(pred) =~= views(found@));
        }
        while i < store.tags.len()
            invariant
                i <= store.tags.len(),
                pred == in_category(category),
                views(found@) == store@.tags.take(i as int).filter(pred),
            decreases store.tags.len() - i,
        {
            let row = &store.tags[i];
            let keep = match category {
                None => true,
                Some(id) => row.category_id == id,
            };
            proof {
                lemma_filter_step(store@.tags, i as int, pred);
                assert(store@.tags[i as int] == row@);
                assert(keep == pred(row@));
            }
            if keep {
                let ghost before = found@;
                found.push(row.clone());
                assert(views(found@) =~= views(before).push(row@));
            }
            i += 1;
        }
        assert(store@.tags.take(i as int) =~= store@.tags);
        Ok(sorted_by_name(found))
    }

    /// The tags whose name begins with `name`, trimmed, ASCII letter case aside, in
    /// ascending order of their names. A name of fewer than 3 grapheme clusters is refused.
    pub fn search_by_name(&self, store: &Store, name: &str) -> (r: Result<Vec<Tag>, Error>)
        ensures
            match r {
                Ok(found) => grapheme_clusters(trimmed(name@)) >= MIN_SEARCH_LENGTH && by_name(
                    views(found@),
                ) && views(found@).to_multiset() == store@.tags.filter(
                    named_like(name@),
                ).to_multiset(),
                Err(e) => grapheme_clusters(trimmed(name@)) < MIN_SEARCH_LENGTH && e
                    == Error::InvalidName,
            },
    {
        let wanted = trim(name);
        if grapheme_count(wanted.as_str()) < MIN_SEARCH_LENGTH {
            return Err(Error::InvalidName);
        }
        let prefix = to_ascii_lowercase(wanted.as_str());
        let ghost pred = named_like(name@);
        let mut found: Vec<Tag> = Vec::new();
        let mut i: usize = 0;
        proof {
            reveal(Seq::filter);
            assert(store@.tags.take(0).filter(pred) =~= views(found@));
        }
        while i < store.tags.len()
            invariant
                i <= store.tags.len(),
                pred == named_like(name@),
                prefix@ == ascii_lowercase(trimmed(name@)),
                views(found@) == store@.tags.take(i as int).filter(pred),
            decreases store.tags.len() - i,
        {
            let row = &store.tags[i];
            let lower = to_ascii_lowercase(row.name.as_str());
            let keep = starts_with(lower.as_str(), prefix.as_str());
            proof {
                lemma_filter_step(store@.tags, i as int, pred);
                assert(store@.tags[i as int] == row@);
                assert(keep == pred(row@));
            }
            if keep {
                let ghost before = found@;
                found.push(row.clone());
                assert(views(found@) =~= views(before).push(row@));
            }
            i += 1;
        }
        assert(store@.tags.take(i as int) =~= store@.tags);
        Ok(sorted_by_name(found))
    }

    /// Removes the tag `id`. Media files that carry it are not looked at.
    pub fn delete(&self, store: &mut Store, id: i32) -> (r: Result<(), Error>)
        requires
            old(store)@.wf(),
        ensures
            final(store)@.wf(),
            distinct_names(old(store)@.tags) ==> distinct_names(final(store)@.tags),
            match r {
                Ok(_) => lookup_rejection(old(store)@.tags, id as int) is None && final(store)@ == (
                StoreView {
                    tags: old(store)@.tags.remove(index_of(old(store)@.tags, id as int)),
                    ..old(store)@
                }),
                Err(e) => final(store)@ == old(store)@ && lookup_rejection(
                    old(store)@.tags,
                    id as int,
                ) == Some(e),
            },
    {
        match self.locate(store, id) {
            Ok(at) => {
                proof {
                    if distinct_names(store@.tags) {
                        lemma_remove_keeps_names_distinct(store@.tags, at as int);
                    }
                }
                store.remove_tag(at);
                Ok(())
            },
            Err(e) => Err(e),
        }
    }
}

} // verus!
