//! The registry of tag categories.

use crate::data::tag_category::{Category, CategoryView};
use crate::database::connection::DatabaseConnection;
use crate::database::store::{
    has_key, index_of, keyed, lemma_filter_step, lemma_keyed_filter, lemma_row_with, row_with,
    views, Store, StoreView,
};
use crate::media::base_paths::{holds, selects, wanted};
use crate::text::{
    ascii_lowercase, grapheme_clusters, grapheme_count, is_color, is_prefix, is_space,
    lemma_strip_again, lowercase, starts_with, to_ascii_lowercase, to_lowercase, trim, trimmed,
    valid_color,
};
use vstd::prelude::*;

verus! {

/// The most grapheme clusters that a description may have.
pub const MAX_DESCRIPTION_LENGTH: usize = 300;

/// The most grapheme clusters that a name may have.
pub const MAX_NAME_LENGTH: usize = 50;

/// The fewest grapheme clusters that a name to search for may have.
pub const MIN_SEARCH_LENGTH: usize = 3;

/// The registry of tag categories.
#[derive(Debug)]
pub struct TagCategories {
    pub connection: DatabaseConnection,
}

/// The registry of tag categories of the catalogue behind `connection`.
pub fn tag_categories(connection: DatabaseConnection) -> (registry: TagCategories)
    ensures
        registry.connection == connection,
{
    TagCategories { connection }
}

/// Why the registry of tag categories refused an operation.
#[derive(Clone, Copy, Debug, PartialEq, Eq)]
pub enum Error {
    /// The identifier is zero or negative.
    InvalidID,
    /// No category has the identifier.
    NotFound,
    /// The colour is no hexadecimal colour.
    InvalidColor,
    /// The name is empty.
    InvalidName,
    /// The name is longer than 50.
    NameTooLong,
    /// The description is longer than 300.
    DescriptionTooLong,
    /// The name to search for is shorter than 3.
    NameToSearchTooShort,
}

/// The fields of a category to change; a field that is `None` keeps its value.
pub struct UpdateTagCategory<'a> {
    /// The new name.
    pub name: Option<&'a str>,
    /// The new colour.
    pub color: Option<&'a str>,
    /// The new description.
    pub description: Option<&'a str>,
}

/// What an optional text holds.
pub open spec fn text_view(text: Option<&str>) -> Option<Seq<char>> {
    match text {
        None => None,
        Some(s) => Some(s@),
    }
}

/// A value, unless another is given.
pub open spec fn or_kept<T>(given: Option<T>, kept: T) -> T {
    match given {
        None => kept,
        Some(value) => value,
    }
}

/// `row` with the fields that are given, and its other fields as they are.
pub open spec fn merged(
    row: CategoryView,
    name: Option<Seq<char>>,
    color: Option<Seq<char>>,
    description: Option<Seq<char>>,
) -> CategoryView {
    CategoryView {
        id: row.id,
        name: or_kept(name, row.name),
        color: or_kept(color, row.color),
        description: or_kept(description, row.description),
    }
}

/// `row` in its stored form: name and description trimmed, the colour in lower case.
pub open spec fn cleaned(row: CategoryView) -> CategoryView {
    CategoryView {
        id: row.id,
        name: trimmed(row.name),
        color: ascii_lowercase(row.color),
        description: trimmed(row.description),
    }
}

/// What is wrong with a category, if anything: the first check that fails.
pub open spec fn invalid(row: CategoryView) -> Option<Error> {
    if row.name.len() == 0 {
        Some(Error::InvalidName)
    } else if grapheme_clusters(row.name) > MAX_NAME_LENGTH {
        Some(Error::NameTooLong)
    } else if grapheme_clusters(row.description) > MAX_DESCRIPTION_LENGTH {
        Some(Error::DescriptionTooLong)
    } else if !valid_color(row.color) {
        Some(Error::InvalidColor)
    } else {
        None
    }
}

/// Why no category is found under `id`, if none is.
pub open spec fn lookup_rejection(rows: Seq<CategoryView>, id: int) -> Option<Error> {
    if id <= 0 {
        Some(Error::InvalidID)
    } else if !has_key(rows, id) {
        Some(Error::NotFound)
    } else {
        None
    }
}

/// Why a category is not updated, if it is not.
pub open spec fn update_rejection(
    rows: Seq<CategoryView>,
    id: int,
    name: Option<Seq<char>>,
    color: Option<Seq<char>>,
    description: Option<Seq<char>>,
) -> Option<Error> {
    if lookup_rejection(rows, id) is Some {
        lookup_rejection(rows, id)
    } else {
        invalid(cleaned(merged(row_with(rows, id), name, color, description)))
    }
}

/// The categories that a list of identifiers asks for.
pub open spec fn selected(ids: Option<Seq<i32>>) -> spec_fn(CategoryView) -> bool {
    |row: CategoryView| selects(ids, row.id)
}

/// The categories whose name begins with `name`, letter case aside.
pub open spec fn named_like(name: Seq<char>) -> spec_fn(CategoryView) -> bool {
    |row: CategoryView| is_prefix(lowercase(name), lowercase(row.name))
}

/// A patch without fields changes nothing.
pub proof fn lemma_empty_patch(row: CategoryView)
    ensures
        merged(row, None, None, None) == row,
{
}

/// A patch changes the fields that it gives and no others.
pub proof fn lemma_patch_fields(
    row: CategoryView,
    name: Option<Seq<char>>,
    color: Option<Seq<char>>,
    description: Option<Seq<char>>,
)
    ensures
        merged(row, name, color, description).id == row.id,
        name is None ==> merged(row, name, color, description).name == row.name,
        name is Some ==> merged(row, name, color, description).name == name->0,
        color is None ==> merged(row, name, color, description).color == row.color,
        color is Some ==> merged(row, name, color, description).color == color->0,
        description is None ==> merged(row, name, color, description).description
            == row.description,
        description is Some ==> merged(row, name, color, description).description
            == description->0,
{
}

/// Bringing a category into its stored form twice is bringing it there once.
pub proof fn lemma_clean_twice(row: CategoryView)
    ensures
        cleaned(cleaned(row)) == cleaned(row),
{
    lemma_strip_again(row.name, is_space());
    lemma_strip_again(row.description, is_space());
    let lower = ascii_lowercase(row.color);
    assert(ascii_lowercase(lower) =~= lower);
}

/// An update without fields leaves a category that is in its stored form as it is,
/// and is judged by that category alone.
pub proof fn lemma_update_nothing(rows: Seq<CategoryView>, id: int)
    requires
        lookup_rejection(rows, id) is None,
        cleaned(row_with(rows, id)) == row_with(rows, id),
    ensures
        cleaned(merged(row_with(rows, id), None, None, None)) == row_with(rows, id),
        update_rejection(rows, id, None, None, None) == invalid(row_with(rows, id)),
{
}

impl Default for UpdateTagCategory<'_> {
    fn default() -> (patch: Self)
        ensures
            patch.name is None,
            patch.color is None,
            patch.description is None,
    {
        UpdateTagCategory { name: None, color: None, description: None }
    }
}

impl Category {
    /// Checks the category, in the order of [`invalid`], and hands it back if it is valid.
    pub fn validate(self) -> (r: Result<Self, Error>)
        ensures
            match r {
                Ok(row) => invalid(self@) is None && row == self,
                Err(e) => invalid(self@) == Some(e),
            },
    {
        if self.name.as_str().is_empty() {
            return Err(Error::InvalidName);
        }
        if grapheme_count(self.name.as_str()) > MAX_NAME_LENGTH {
            return Err(Error::NameTooLong);
        }
        if grapheme_count(self.description.as_str()) > MAX_DESCRIPTION_LENGTH {
            return Err(Error::DescriptionTooLong);
        }
        if !is_color(self.color.as_str()) {
            return Err(Error::InvalidColor);
        }
        Ok(self)
    }

    /// The category in its stored form.
    pub fn clean(self) -> (row: Self)
        ensures
            row@ == cleaned(self@),
    {
        Category {
            id: self.id,
            name: trim(self.name.as_str()),
            color: to_ascii_lowercase(self.color.as_str()),
            description: trim(self.description.as_str()),
        }
    }

    /// The category with the fields that `new_data` gives.
    pub fn with_new_data(self, new_data: UpdateTagCategory) -> (row: Self)
        ensures
            row@ == merged(
                self@,
                text_view(new_data.name),
                text_view(new_data.color),
                text_view(new_data.description),
            ),
    {
        Category {
            id: self.id,
            name: match new_data.name {
                Some(name) => name.to_owned(),
                None => self.name,
            },
            color: match new_data.color {
                Some(color) => color.to_owned(),
                None => self.color,
            },
            description: match new_data.description {
                Some(description) => description.to_owned(),
                None => self.description,
            },
        }
    }
}

impl TagCategories {
    /// Where the category `id` stands, or why it is not found.
    pub fn locate(&self, store: &Store, id: i32) -> (r: Result<usize, Error>)
        requires
            store@.wf(),
        ensures
            match r {
                Ok(at) => lookup_rejection(store@.categories, id as int) is None && at == index_of(
                    store@.categories,
                    id as int,
                ) && at < store@.categories.len(),
                Err(e) => lookup_rejection(store@.categories, id as int) == Some(e),
            },
    {
        if id <= 0 {
            return Err(Error::InvalidID);
        }
        match store.category_position(id) {
            Some(at) => {
                proof {
                    lemma_row_with(store@.categories, at as int);
                }
                Ok(at)
            },
            None => Err(Error::NotFound),
        }
    }

    /// The category with the identifier `id`.
    pub fn get(&self, store: &Store, id: i32) -> (r: Result<Category, Error>)
        requires
            store@.wf(),
        ensures
            match r {
                Ok(row) => lookup_rejection(store@.categories, id as int) is None && row@
                    == row_with(store@.categories, id as int),
                Err(e) => lookup_rejection(store@.categories, id as int) == Some(e),
            },
    {
        match self.locate(store, id) {
            Ok(at) => Ok(store.categories[at].clone()),
            Err(e) => Err(e),
        }
    }

    /// Changes the fields of the category `id` that `new_data` gives. The category is
    /// merged, brought into its stored form and checked as a whole; a category that
    /// fails a check stays as it was.
    pub fn update(&self, store: &mut Store, id: i32, new_data: UpdateTagCategory) -> (r: Result<
        (),
        Error,
    >)
        requires
            old(store)@.wf(),
        ensures
            final(store)@.wf(),
            match r {
                Ok(_) => update_rejection(
                    old(store)@.categories,
                    id as int,
                    text_view(new_data.name),
                    text_view(new_data.color),
                    text_view(new_data.description),
                ) is None && final(store)@ == (StoreView {
                    categories: old(store)@.categories.update(
                        index_of(old(store)@.categories, id as int),
                        cleaned(
                            merged(
                                row_with(old(store)@.categories, id as int),
                                text_view(new_data.name),
                                text_view(new_data.color),
                                text_view(new_data.description),
                            ),
                        ),
                    ),
                    ..old(store)@
                }),
                Err(e) => final(store)@ == old(store)@ && update_rejection(
                    old(store)@.categories,
                    id as int,
                    text_view(new_data.name),
                    text_view(new_data.color),
                    text_view(new_data.description),
                ) == Some(e),
            },
    {
        let at: usize = match self.locate(store, id) {
            Ok(at) => at,
            Err(e) => {
                return Err(e);
            },
        };
        let current = store.categories[at].clone();
        match current.with_new_data(new_data).clean().validate() {
            Ok(row) => {
                store.replace_category(at, row);
                Ok(())
            },
            Err(e) => Err(e),
        }
    }

    /// The categories whose name begins with `name`, letter case aside, in ascending
    /// order of their identifiers. A name of fewer than 3 grapheme clusters is refused.
    pub fn search_by_name(&self, store: &Store, name: &str) -> (r: Result<Vec<Category>, Error>)
        ensures
            match r {
                Ok(found) => grapheme_clusters(name@) >= MIN_SEARCH_LENGTH && views(found@)
                    == store@.categories.filter(named_like(name@)),
                Err(e) => grapheme_clusters(name@) < MIN_SEARCH_LENGTH && e
                    == Error::NameToSearchTooShort,
            },
    {
        if grapheme_count(name) < MIN_SEARCH_LENGTH {
            return Err(Error::NameToSearchTooShort);
        }
        let prefix = to_lowercase(name);
        let ghost pred = named_like(name@);
        let mut found: Vec<Category> = Vec::new();
        let mut i: usize = 0;
        proof {
            reveal(Seq::filter);
            assert(store@.categories.take(0).filter(pred) =~= views(found@));
        }
        while i < store.categories.len()
            invariant
                i <= store.categories.len(),
                pred == named_like(name@),
                prefix@ == lowercase(name@),
                views(found@) == store@.categories.take(i as int).filter(pred),
            decreases store.categories.len() - i,
        {
            let row = &store.categories[i];
            let lower = to_lowercase(row.name.as_str());
            let keep = starts_with(lower.as_str(), prefix.as_str());
            proof {
                lemma_filter_step(store@.categories, i as int, pred);
                assert(store@.categories[i as int] == row@);
                assert(keep == pred(row@));
            }
            if keep {
                let ghost before = found@;
                found.push(row.clone());
                assert(views(found@) =~= views(before).push(row@));
            }
            i += 1;
        }
        assert(store@.categories.take(i as int) =~= store@.categories);
        Ok(found)
    }

    /// The categories that `ids` asks for, in ascending order of their identifiers.
    /// Without a list, or with an empty one, these are all categories.
    pub fn list(&self, store: &Store, ids: Option<Vec<i32>>) -> (r: Result<Vec<Category>, Error>)
        ensures
            r is Ok,
            views(r->Ok_0@) == store@.categories.filter(selected(wanted(ids))),
            store@.wf() ==> keyed(views(r->Ok_0@)),
    {
        let ghost pred = selected(wanted(ids));
        proof {
            if store@.wf() {
                lemma_keyed_filter(store@.categories, pred);
            }
        }
        let mut found: Vec<Category> = Vec::new();
        let mut i: usize = 0;
        proof {
            reveal(Seq::filter);
            assert(store@.categories.take(0).filter(pred) =~= views(found@));
        }
        while i < store.categories.len()
            invariant
                i <= store.categories.len(),
                pred == selected(wanted(ids)),
                views(found@) == store@.categories.take(i as int).filter(pred),
            decreases store.categories.len() - i,
        {
            let row = &store.categories[i];
            let keep = match &ids {
                None => true,
                Some(list) => list.len() == 0 || holds(list, row.id),
            };
            proof {
                lemma_filter_step(store@.categories, i as int, pred);
                assert(store@.categories[i as int] == row@);
                assert(keep == pred(row@));
            }
            if keep {
                let ghost before = found@;
                found.push(row.clone());
                assert(views(found@) =~= views(before).push(row@));
            }
            i += 1;
        }
        assert(store@.categories.take(i as int) =~= store@.categories);
        Ok(found)
    }

    /// Removes the category `id`. Tags that belong to it are not looked at.
    pub fn delete(&self, store: &mut Store, id: i32) -> (r: Result<(), Error>)
        requires
            old(store)@.wf(),
        ensures
            final(store)@.wf(),
            match r {
                Ok(_) => lookup_rejection(old(store)@.categories, id as int) is None
                    && final(store)@ == (StoreView {
                    categories: old(store)@.categories.remove(
                        index_of(old(store)@.categories, id as int),
                    ),
                    ..old(store)@
                }),
                Err(e) => final(store)@ == old(store)@ && lookup_rejection(
                    old(store)@.categories,
                    id as int,
                ) == Some(e),
            },
    {
        match self.locate(store, id) {
            Ok(at) => {
                store.remove_category(at);
                Ok(())
            },
            Err(e) => Err(e),
        }
    }
}

} // verus!
