//! The five tables of the catalogue, each kept in ascending order of its identifiers.

use crate::data::base_path::{BasePath, BasePathView};
use crate::data::media_file::{MediaFile, MediaFileView};
use crate::data::media_tag::MediaTag;
use crate::data::tag::{Tag, TagView};
use crate::data::tag_category::{Category, CategoryView};
use vstd::prelude::*;

verus! {

/// A row that is found by its identifier.
pub trait Keyed {
    /// The identifier of the row.
    spec fn key(&self) -> int;
}

impl Keyed for BasePathView {
    open spec fn key(&self) -> int {
        self.id
    }
}

impl Keyed for CategoryView {
    open spec fn key(&self) -> int {
        self.id
    }
}

impl Keyed for TagView {
    open spec fn key(&self) -> int {
        self.id
    }
}

impl Keyed for MediaFileView {
    open spec fn key(&self) -> int {
        self.id
    }
}

impl Keyed for MediaTag {
    open spec fn key(&self) -> int {
        self.id as int
    }
}

/// The identifiers are positive and strictly ascending, so none occurs twice.
pub open spec fn keyed<T: Keyed>(rows: Seq<T>) -> bool {
    &&& forall|i: int| 0 <= i < rows.len() ==> 0 < (#[trigger] rows[i]).key()
    &&& forall|i: int, j: int|
        0 <= i < j < rows.len() ==> (#[trigger] rows[i]).key() < (#[trigger] rows[j]).key()
}

/// Whether a row with the identifier `id` is among `rows`.
pub open spec fn has_key<T: Keyed>(rows: Seq<T>, id: int) -> bool {
    exists|i: int| 0 <= i < rows.len() && (#[trigger] rows[i]).key() == id
}

/// The index of the row with the identifier `id`, where there is one.
pub open spec fn index_of<T: Keyed>(rows: Seq<T>, id: int) -> int {
    choose|i: int| 0 <= i < rows.len() && (#[trigger] rows[i]).key() == id
}

/// The row with the identifier `id`, where there is one.
pub open spec fn row_with<T: Keyed>(rows: Seq<T>, id: int) -> T {
    rows[index_of(rows, id)]
}

/// The views of the rows of a table.
pub open spec fn views<T: View>(rows: Seq<T>) -> Seq<T::V> {
    rows.map_values(|r: T| r@)
}

/// Filtering one row more either appends that row or changes nothing.
pub proof fn lemma_filter_step<T>(rows: Seq<T>, i: int, pred: spec_fn(T) -> bool)
    requires
        0 <= i < rows.len(),
    ensures
        rows.take(i + 1).filter(pred) == if pred(rows[i]) {
            rows.take(i).filter(pred).push(rows[i])
        } else {
            rows.take(i).filter(pred)
        },
{
    assert(rows.take(i + 1) =~= rows.take(i).push(rows[i]));
    rows.take(i).lemma_filter_push(rows[i], pred);
}

/// The identifier that the next row gets: one more than the last, and none once
/// `max` is reached.
pub open spec fn fresh_key<T: Keyed>(rows: Seq<T>, max: int) -> Option<int> {
    if rows.len() == 0 {
        Some(1)
    } else if rows.last().key() >= max {
        None
    } else {
        Some(rows.last().key() + 1)
    }
}

/// A row appended under the fresh identifier keeps the table in order.
pub proof fn lemma_keyed_push<T: Keyed>(rows: Seq<T>, row: T, max: int)
    requires
        keyed(rows),
        fresh_key(rows, max) == Some(row.key()),
    ensures
        keyed(rows.push(row)),
        !has_key(rows, row.key()),
{
    let after = rows.push(row);
    assert forall|i: int, j: int| 0 <= i < j < after.len() implies (#[trigger] after[i]).key() < (
    #[trigger] after[j]).key() by {
        if j == rows.len() {
            assert(after[i] == rows[i]);
            if i < rows.len() - 1 {
                assert(rows[i].key() < rows[rows.len() - 1].key());
            }
        } else {
            assert(after[i] == rows[i] && after[j] == rows[j]);
        }
    }
    assert forall|i: int| 0 <= i < after.len() implies 0 < (#[trigger] after[i]).key() by {
        if i < rows.len() {
            assert(after[i] == rows[i]);
        }
    }
    assert forall|i: int| 0 <= i < rows.len() implies (#[trigger] rows[i]).key() != row.key() by {
        if i < rows.len() - 1 {
            assert(rows[i].key() < rows[rows.len() - 1].key());
        }
    }
}

/// A table without one of its rows is still in order.
pub proof fn lemma_keyed_remove<T: Keyed>(rows: Seq<T>, at: int)
    requires
        keyed(rows),
        0 <= at < rows.len(),
    ensures
        keyed(rows.remove(at)),
        !has_key(rows.remove(at), rows[at].key()),
        forall|id: int| id != rows[at].key() ==> (has_key(rows.remove(at), id) <==> has_key(rows, id)),
{
    let after = rows.remove(at);
    assert forall|i: int| 0 <= i < after.len() implies after[i] == rows[if i < at { i } else { i + 1 }] by {}
    assert forall|i: int, j: int| 0 <= i < j < after.len() implies (#[trigger] after[i]).key() < (
    #[trigger] after[j]).key() by {
        let a = if i < at { i } else { i + 1 };
        let b = if j < at { j } else { j + 1 };
        assert(after[i] == rows[a] && after[j] == rows[b]);
    }
    assert forall|i: int| 0 <= i < after.len() implies 0 < (#[trigger] after[i]).key() && after[i].key()
        != rows[at].key() by {
        let a = if i < at { i } else { i + 1 };
        assert(after[i] == rows[a]);
        if a < at {
            assert(rows[a].key() < rows[at].key());
        } else {
            assert(rows[at].key() < rows[a].key());
        }
    }
    assert forall|id: int| id != rows[at].key() implies (has_key(after, id) <==> has_key(rows, id)) by {
        if has_key(after, id) {
            let i = choose|i: int| 0 <= i < after.len() && (#[trigger] after[i]).key() == id;
            let a = if i < at { i } else { i + 1 };
            assert(rows[a].key() == id);
        }
        if has_key(rows, id) {
            let a = choose|a: int| 0 <= a < rows.len() && (#[trigger] rows[a]).key() == id;
            let i = if a < at { a } else { a - 1 };
            assert(after[i] == rows[a]);
        }
    }
}

/// A row replaced by one with the same identifier leaves the table in order.
pub proof fn lemma_keyed_update<T: Keyed>(rows: Seq<T>, at: int, row: T)
    requires
        keyed(rows),
        0 <= at < rows.len(),
        row.key() == rows[at].key(),
    ensures
        keyed(rows.update(at, row)),
        forall|id: int| has_key(rows.update(at, row), id) <==> has_key(rows, id),
{
    let after = rows.update(at, row);
    assert forall|i: int| 0 <= i < after.len() implies (#[trigger] after[i]).key() == rows[i].key() by {}
    assert forall|i: int, j: int| 0 <= i < j < after.len() implies (#[trigger] after[i]).key() < (
    #[trigger] after[j]).key() by {
        assert(rows[i].key() < rows[j].key());
    }
    assert forall|i: int| 0 <= i < after.len() implies 0 < (#[trigger] after[i]).key() by {
        assert(0 < rows[i].key());
    }
    assert forall|id: int| has_key(after, id) <==> has_key(rows, id) by {
        if has_key(after, id) {
            let i = choose|i: int| 0 <= i < after.len() && (#[trigger] after[i]).key() == id;
            assert(rows[i].key() == id);
        }
        if has_key(rows, id) {
            let i = choose|i: int| 0 <= i < rows.len() && (#[trigger] rows[i]).key() == id;
            assert(after[i].key() == id);
        }
    }
}

/// In a table in order, the row with a given identifier is the only one with it.
pub proof fn lemma_row_with<T: Keyed>(rows: Seq<T>, at: int)
    requires
        keyed(rows),
        0 <= at < rows.len(),
    ensures
        has_key(rows, rows[at].key()),
        index_of(rows, rows[at].key()) == at,
        row_with(rows, rows[at].key()) == rows[at],
{
    let id = rows[at].key();
    let i = index_of(rows, id);
    if i < at {
        assert(rows[i].key() < rows[at].key());
    }
    if at < i {
        assert(rows[at].key() < rows[i].key());
    }
}

/// The rows of a table in order that satisfy a predicate are in order too: what is
/// chosen from a table comes in ascending order of the identifiers.
pub proof fn lemma_keyed_filter<T: Keyed>(rows: Seq<T>, pred: spec_fn(T) -> bool)
    requires
        keyed(rows),
    ensures
        keyed(rows.filter(pred)),
    decreases rows.len(),
{
    reveal(Seq::filter);
    if rows.len() > 0 {
        let init = rows.drop_last();
        let last = rows.last();
        assert forall|i: int| 0 <= i < init.len() implies (#[trigger] init[i]) == rows[i] by {}
        assert(keyed(init)) by {
            assert forall|i: int, j: int| 0 <= i < j < init.len() implies (#[trigger] init[i]).key()
                < (#[trigger] init[j]).key() by {
                assert(rows[i].key() < rows[j].key());
            }
            assert forall|i: int| 0 <= i < init.len() implies 0 < (#[trigger] init[i]).key() by {
                assert(0 < rows[i].key());
            }
        }
        lemma_keyed_filter(init, pred);
        let chosen = init.filter(pred);
        if pred(last) {
            let after = chosen.push(last);
            assert forall|i: int| 0 <= i < chosen.len() implies (#[trigger] chosen[i]).key()
                < last.key() by {
                assert(chosen.contains(chosen[i]));
                init.lemma_filter_contains_rev(pred, chosen[i]);
                let k = choose|k: int| 0 <= k < init.len() && init[k] == chosen[i];
                assert(rows[k].key() < rows[rows.len() - 1].key());
            }
            assert forall|i: int, j: int| 0 <= i < j < after.len() implies (#[trigger] after[i]).key()
                < (#[trigger] after[j]).key() by {
                if j < chosen.len() {
                    assert(after[i] == chosen[i] && after[j] == chosen[j]);
                } else {
                    assert(after[i] == chosen[i]);
                }
            }
            assert forall|i: int| 0 <= i < after.len() implies 0 < (#[trigger] after[i]).key() by {
                if i < chosen.len() {
                    assert(after[i] == chosen[i]);
                } else {
                    assert(0 < rows[rows.len() - 1].key());
                }
            }
        }
    }
}

/// A stored row, which tells its identifier.
pub trait Identified {
    /// The identifier of the row.
    spec fn identified_by(&self) -> int;

    /// The identifier of the row.
    fn identifier(&self) -> (id: i64)
        ensures
            id == self.identified_by(),
    ;
}

impl Identified for BasePath {
    open spec fn identified_by(&self) -> int {
        self.id as int
    }

    fn identifier(&self) -> (id: i64) {
        self.id as i64
    }
}

impl Identified for Category {
    open spec fn identified_by(&self) -> int {
        self.id as int
    }

    fn identifier(&self) -> (id: i64) {
        self.id as i64
    }
}

impl Identified for Tag {
    open spec fn identified_by(&self) -> int {
        self.id as int
    }

    fn identifier(&self) -> (id: i64) {
        self.id as i64
    }
}

impl Identified for MediaFile {
    open spec fn identified_by(&self) -> int {
        self.id as int
    }

    fn identifier(&self) -> (id: i64) {
        self.id
    }
}

impl Identified for MediaTag {
    open spec fn identified_by(&self) -> int {
        self.id as int
    }

    fn identifier(&self) -> (id: i64) {
        self.id
    }
}

/// The identifiers of the rows, in the order of the rows.
pub open spec fn identifiers<R: Identified>(rows: Seq<R>) -> Seq<int> {
    rows.map_values(|row: R| row.identified_by())
}

/// The identifiers are positive and strictly ascending.
pub open spec fn ascending(ids: Seq<int>) -> bool {
    &&& forall|i: int| 0 <= i < ids.len() ==> 0 < #[trigger] ids[i]
    &&& forall|i: int, j: int| 0 <= i < j < ids.len() ==> #[trigger] ids[i] < #[trigger] ids[j]
}

/// Where every identifier is greater than the one before, a later one is greater
/// than an earlier one.
pub proof fn lemma_neighbours_between(ids: Seq<int>, i: int, j: int)
    requires
        forall|k: int| 0 <= k < ids.len() - 1 ==> #[trigger] ids[k] < ids[k + 1],
        0 <= i < j < ids.len(),
    ensures
        ids[i] < ids[j],
    decreases j - i,
{
    if j > i + 1 {
        lemma_neighbours_between(ids, i, j - 1);
    }
    assert(ids[j - 1] < ids[j]);
}

/// Identifiers ascend if the first is positive and every one is greater than the one
/// before.
pub proof fn lemma_ascending_by_neighbours(ids: Seq<int>)
    requires
        ids.len() > 0 ==> ids[0] > 0,
        forall|k: int| 0 <= k < ids.len() - 1 ==> #[trigger] ids[k] < ids[k + 1],
    ensures
        ascending(ids),
{
    assert forall|i: int, j: int| 0 <= i < j < ids.len() implies #[trigger] ids[i] < #[trigger] ids[j] by {
        lemma_neighbours_between(ids, i, j);
    }
    assert forall|i: int| 0 <= i < ids.len() implies 0 < #[trigger] ids[i] by {
        if i > 0 {
            lemma_neighbours_between(ids, 0, i);
        }
    }
}

/// A table is in order exactly when its identifiers ascend.
pub proof fn lemma_keyed_by_identifiers<T: Keyed>(rows: Seq<T>, ids: Seq<int>)
    requires
        ids.len() == rows.len(),
        forall|i: int| 0 <= i < rows.len() ==> #[trigger] ids[i] == rows[i].key(),
    ensures
        keyed(rows) == ascending(ids),
{
    if keyed(rows) {
        assert forall|i: int, j: int| 0 <= i < j < ids.len() implies #[trigger] ids[i] < #[trigger] ids[j] by {
            assert(rows[i].key() < rows[j].key());
        }
        assert forall|i: int| 0 <= i < ids.len() implies 0 < #[trigger] ids[i] by {
            assert(0 < rows[i].key());
        }
    }
    if ascending(ids) {
        assert forall|i: int, j: int| 0 <= i < j < rows.len() implies (#[trigger] rows[i]).key() < (
        #[trigger] rows[j]).key() by {
            assert(ids[i] < ids[j]);
        }
        assert forall|i: int| 0 <= i < rows.len() implies 0 < (#[trigger] rows[i]).key() by {
            assert(0 < ids[i]);
        }
    }
}

/// Whether the identifiers of `rows` are positive and strictly ascending.
fn rows_in_order<R: Identified>(rows: &Vec<R>) -> (ok: bool)
    ensures
        ok == ascending(identifiers(rows@)),
{
    let n: usize = rows.len();
    let ghost ids = identifiers(rows@);
    if n == 0 {
        return true;
    }
    let mut last: i64 = rows[0].identifier();
    if last <= 0 {
        assert(ids[0] <= 0);
        return false;
    }
    let mut i: usize = 1;
    while i < n
        invariant
            1 <= i <= n,
            n == rows@.len(),
            ids == identifiers(rows@),
            ids[0] > 0,
            last == ids[i - 1],
            forall|k: int| 0 <= k < i - 1 ==> #[trigger] ids[k] < ids[k + 1],
        decreases n - i,
    {
        let next: i64 = rows[i].identifier();
        if last >= next {
            assert(ids[i - 1] >= ids[i as int]);
            return false;
        }
        last = next;
        i += 1;
    }
    proof {
        lemma_ascending_by_neighbours(ids);
    }
    true
}

/// Why the tables refused a row.
#[derive(Clone, Copy, Debug, PartialEq, Eq)]
pub enum StoreError {
    /// The table has given out its last identifier.
    Exhausted,
}

/// The tables of the catalogue.
#[derive(Debug)]
pub struct Store {
    pub base_paths: Vec<BasePath>,
    pub categories: Vec<Category>,
    pub tags: Vec<Tag>,
    pub media: Vec<MediaFile>,
    pub media_tags: Vec<MediaTag>,
}

/// What a [`Store`] holds, as mathematical values: each table is a sequence of rows.
pub struct StoreView {
    pub base_paths: Seq<BasePathView>,
    pub categories: Seq<CategoryView>,
    pub tags: Seq<TagView>,
    pub media: Seq<MediaFileView>,
    pub media_tags: Seq<MediaTag>,
}

impl StoreView {
    /// Every table is in ascending order of positive identifiers.
    pub open spec fn wf(self) -> bool {
        &&& keyed(self.base_paths)
        &&& keyed(self.categories)
        &&& keyed(self.tags)
        &&& keyed(self.media)
        &&& keyed(self.media_tags)
    }
}

impl View for Store {
    type V = StoreView;

    open spec fn view(&self) -> StoreView {
        StoreView {
            base_paths: self.base_paths@.map_values(|r: BasePath| r@),
            categories: self.categories@.map_values(|r: Category| r@),
            tags: self.tags@.map_values(|r: Tag| r@),
            media: self.media@.map_values(|r: MediaFile| r@),
            media_tags: self.media_tags@,
        }
    }
}

impl Store {
    /// The tables, all empty.
    pub fn new() -> (store: Store)
        ensures
            store@.wf(),
            store@.base_paths.len() == 0,
            store@.categories.len() == 0,
            store@.tags.len() == 0,
            store@.media.len() == 0,
            store@.media_tags.len() == 0,
    {
        Store {
            base_paths: Vec::new(),
            categories: Vec::new(),
            tags: Vec::new(),
            media: Vec::new(),
            media_tags: Vec::new(),
        }
    }

    /// Whether the base path table is in ascending order of positive identifiers.
    pub fn base_paths_in_order(&self) -> (ok: bool)
        ensures
            ok == keyed(self@.base_paths),
    {
        proof {
            lemma_keyed_by_identifiers(self@.base_paths, identifiers(self.base_paths@));
        }
        rows_in_order(&self.base_paths)
    }

    /// Whether the category table is in ascending order of positive identifiers.
    pub fn categories_in_order(&self) -> (ok: bool)
        ensures
            ok == keyed(self@.categories),
    {
        proof {
            lemma_keyed_by_identifiers(self@.categories, identifiers(self.categories@));
        }
        rows_in_order(&self.categories)
    }

    /// Whether the tag table is in ascending order of positive identifiers.
    pub fn tags_in_order(&self) -> (ok: bool)
        ensures
            ok == keyed(self@.tags),
    {
        proof {
            lemma_keyed_by_identifiers(self@.tags, identifiers(self.tags@));
        }
        rows_in_order(&self.tags)
    }

    /// Whether the media file table is in ascending order of positive identifiers.
    pub fn media_in_order(&self) -> (ok: bool)
        ensures
            ok == keyed(self@.media),
    {
        proof {
            lemma_keyed_by_identifiers(self@.media, identifiers(self.media@));
        }
        rows_in_order(&self.media)
    }

    /// Whether the association table is in ascending order of positive identifiers.
    pub fn media_tags_in_order(&self) -> (ok: bool)
        ensures
            ok == keyed(self@.media_tags),
    {
        proof {
            lemma_keyed_by_identifiers(self@.media_tags, identifiers(self.media_tags@));
        }
        rows_in_order(&self.media_tags)
    }

    /// Whether every table is in ascending order of positive identifiers: what the
    /// registries ask of the tables that they are given.
    pub fn in_order(&self) -> (ok: bool)
        ensures
            ok == self@.wf(),
    {
        self.base_paths_in_order() && self.categories_in_order() && self.tags_in_order()
            && self.media_in_order() && self.media_tags_in_order()
    }

    /// Where the base path with the identifier `id` stands in its table.
    pub fn base_path_position(&self, id: i32) -> (at: Option<usize>)
        ensures
            match at {
                Some(i) => i < self@.base_paths.len() && self@.base_paths[i as int].id == id,
                None => !has_key(self@.base_paths, id as int),
            },
    {
        let mut i: usize = 0;
        while i < self.base_paths.len()
            invariant
                i <= self.base_paths.len(),
                forall|j: int| 0 <= j < i ==> (#[trigger] self@.base_paths[j]).key() != id,
            decreases self.base_paths.len() - i,
        {
            if self.base_paths[i].id == id {
                return Some(i);
            }
            i += 1;
        }
        None
    }

    /// Appends `row` under the next identifier of its table, which is returned; the
    /// identifier that `row` came with is not used.
    pub fn insert_base_path(&mut self, row: BasePath) -> (r: Result<i32, StoreError>)
        requires
            old(self)@.wf(),
        ensures
            final(self)@.wf(),
            match r {
                Ok(id) => fresh_key(old(self)@.base_paths, i32::MAX as int) == Some(id as int)
                    && final(self)@ == (StoreView {
                    base_paths: old(self)@.base_paths.push((BasePathView { id: id as int, ..row@ })),
                    ..old(self)@
                }),
                Err(e) => e == StoreError::Exhausted && fresh_key(old(self)@.base_paths, i32::MAX as int)
                    is None && final(self)@ == old(self)@,
            },
    {
        let n: usize = self.base_paths.len();
        let id: i32 = if n == 0 {
            1
        } else {
            let last: i32 = self.base_paths[n - 1].id;
            if last == i32::MAX {
                return Err(StoreError::Exhausted);
            }
            assert(0 < self@.base_paths[n - 1].key());
            last + 1
        };
        let mut row = row;
        row.id = id;
        proof {
            lemma_keyed_push(self@.base_paths, row@, i32::MAX as int);
        }
        self.base_paths.push(row);
        assert(self@.base_paths =~= old(self)@.base_paths.push(row@));
        Ok(id)
    }

    /// Takes the row at the index `at` out of the base path table.
    pub fn remove_base_path(&mut self, at: usize)
        requires
            old(self)@.wf(),
            at < old(self)@.base_paths.len(),
        ensures
            final(self)@.wf(),
            final(self)@ == (StoreView {
                base_paths: old(self)@.base_paths.remove(at as int),
                ..old(self)@
            }),
    {
        proof {
            lemma_keyed_remove(self@.base_paths, at as int);
        }
        self.base_paths.remove(at);
        assert(self@.base_paths =~= old(self)@.base_paths.remove(at as int));
    }

    /// Puts `row` in the place of the row at the index `at`, which has the same identifier.
    pub fn replace_base_path(&mut self, at: usize, row: BasePath)
        requires
            old(self)@.wf(),
            at < old(self)@.base_paths.len(),
            row.id == old(self)@.base_paths[at as int].id,
        ensures
            final(self)@.wf(),
            final(self)@ == (StoreView {
                base_paths: old(self)@.base_paths.update(at as int, row@),
                ..old(self)@
            }),
    {
        proof {
            lemma_keyed_update(self@.base_paths, at as int, row@);
        }
        self.base_paths.set(at, row);
        assert(self@.base_paths =~= old(self)@.base_paths.update(at as int, row@));
    }

    /// Where the category with the identifier `id` stands in its table.
    pub fn category_position(&self, id: i32) -> (at: Option<usize>)
        ensures
            match at {
                Some(i) => i < self@.categories.len() && self@.categories[i as int].id == id,
                None => !has_key(self@.categories, id as int),
            },
    {
        let mut i: usize = 0;
        while i < self.categories.len()
            invariant
                i <= self.categories.len(),
                forall|j: int| 0 <= j < i ==> (#[trigger] self@.categories[j]).key() != id,
            decreases self.categories.len() - i,
        {
            if self.categories[i].id == id {
                return Some(i);
            }
            i += 1;
        }
        None
    }

    /// Appends `row` under the next identifier of its table, which is returned; the
    /// identifier that `row` came with is not used.
    pub fn insert_category(&mut self, row: Category) -> (r: Result<i32, StoreError>)
        requires
            old(self)@.wf(),
        ensures
            final(self)@.wf(),
            match r {
                Ok(id) => fresh_key(old(self)@.categories, i32::MAX as int) == Some(id as int)
                    && final(self)@ == (StoreView {
                    categories: old(self)@.categories.push((CategoryView { id: id as int, ..row@ })),
                    ..old(self)@
                }),
                Err(e) => e == StoreError::Exhausted && fresh_key(old(self)@.categories, i32::MAX as int)
                    is None && final(self)@ == old(self)@,
            },
    {
        let n: usize = self.categories.len();
        let id: i32 = if n == 0 {
            1
        } else {
            let last: i32 = self.categories[n - 1].id;
            if last == i32::MAX {
                return Err(StoreError::Exhausted);
            }
            assert(0 < self@.categories[n - 1].key());
            last + 1
        };
        let mut row = row;
        row.id = id;
        proof {
            lemma_keyed_push(self@.categories, row@, i32::MAX as int);
        }
        self.categories.push(row);
        assert(self@.categories =~= old(self)@.categories.push(row@));
        Ok(id)
    }

    /// Takes the row at the index `at` out of the category table.
    pub fn remove_category(&mut self, at: usize)
        requires
            old(self)@.wf(),
            at < old(self)@.categories.len(),
        ensures
            final(self)@.wf(),
            final(self)@ == (StoreView {
                categories: old(self)@.categories.remove(at as int),
                ..old(self)@
            }),
    {
        proof {
            lemma_keyed_remove(self@.categories, at as int);
        }
        self.categories.remove(at);
        assert(self@.categories =~= old(self)@.categories.remove(at as int));
    }

    /// Puts `row` in the place of the row at the index `at`, which has the same identifier.
    pub fn replace_category(&mut self, at: usize, row: Category)
        requires
            old(self)@.wf(),
            at < old(self)@.categories.len(),
            row.id == old(self)@.categories[at as int].id,
        ensures
            final(self)@.wf(),
            final(self)@ == (StoreView {
                categories: old(self)@.categories.update(at as int, row@),
                ..old(self)@
            }),
    {
        proof {
            lemma_keyed_update(self@.categories, at as int, row@);
        }
        self.categories.set(at, row);
        assert(self@.categories =~= old(self)@.categories.update(at as int, row@));
    }

    /// Where the tag with the identifier `id` stands in its table.
    pub fn tag_position(&self, id: i32) -> (at: Option<usize>)
        ensures
            match at {
                Some(i) => i < self@.tags.len() && self@.tags[i as int].id == id,
                None => !has_key(self@.tags, id as int),
            },
    {
        let mut i: usize = 0;
        while i < self.tags.len()
            invariant
                i <= self.tags.len(),
                forall|j: int| 0 <= j < i ==> (#[trigger] self@.tags[j]).key() != id,
            decreases self.tags.len() - i,
        {
            if self.tags[i].id == id {
                return Some(i);
            }
            i += 1;
        }
        None
    }

    /// Appends `row` under the next identifier of its table, which is returned; the
    /// identifier that `row` came with is not used.
    pub fn insert_tag(&mut self, row: Tag) -> (r: Result<i32, StoreError>)
        requires
            old(self)@.wf(),
        ensures
            final(self)@.wf(),
            match r {
                Ok(id) => fresh_key(old(self)@.tags, i32::MAX as int) == Some(id as int)
                    && final(self)@ == (StoreView {
                    tags: old(self)@.tags.push((TagView { id: id as int, ..row@ })),
                    ..old(self)@
                }),
                Err(e) => e == StoreError::Exhausted && fresh_key(old(self)@.tags, i32::MAX as int)
                    is None && final(self)@ == old(self)@,
            },
    {
        let n: usize = self.tags.len();
        let id: i32 = if n == 0 {
            1
        } else {
            let last: i32 = self.tags[n - 1].id;
            if last == i32::MAX {
                return Err(StoreError::Exhausted);
            }
            assert(0 < self@.tags[n - 1].key());
            last + 1
        };
        let mut row = row;
        row.id = id;
        proof {
            lemma_keyed_push(self@.tags, row@, i32::MAX as int);
        }
        self.tags.push(row);
        assert(self@.tags =~= old(self)@.tags.push(row@));
        Ok(id)
    }

    /// Takes the row at the index `at` out of the tag table.
    pub fn remove_tag(&mut self, at: usize)
        requires
            old(self)@.wf(),
            at < old(self)@.tags.len(),
        ensures
            final(self)@.wf(),
            final(self)@ == (StoreView {
                tags: old(self)@.tags.remove(at as int),
                ..old(self)@
            }),
    {
        proof {
            lemma_keyed_remove(self@.tags, at as int);
        }
        self.tags.remove(at);
        assert(self@.tags =~= old(self)@.tags.remove(at as int));
    }

    /// Puts `row` in the place of the row at the index `at`, which has the same identifier.
    pub fn replace_tag(&mut self, at: usize, row: Tag)
        requires
            old(self)@.wf(),
            at < old(self)@.tags.len(),
            row.id == old(self)@.tags[at as int].id,
        ensures
            final(self)@.wf(),
            final(self)@ == (StoreView {
                tags: old(self)@.tags.update(at as int, row@),
                ..old(self)@
            }),
    {
        proof {
            lemma_keyed_update(self@.tags, at as int, row@);
        }
        self.tags.set(at, row);
        assert(self@.tags =~= old(self)@.tags.update(at as int, row@));
    }

    /// Where the media file with the identifier `id` stands in its table.
    pub fn media_position(&self, id: i64) -> (at: Option<usize>)
        ensures
            match at {
                Some(i) => i < self@.media.len() && self@.media[i as int].id == id,
                None => !has_key(self@.media, id as int),
            },
    {
        let mut i: usize = 0;
        while i < self.media.len()
            invariant
                i <= self.media.len(),
                forall|j: int| 0 <= j < i ==> (#[trigger] self@.media[j]).key() != id,
            decreases self.media.len() - i,
        {
            if self.media[i].id == id {
                return Some(i);
            }
            i += 1;
        }
        None
    }

    /// Appends `row` under the next identifier of its table, which is returned; the
    /// identifier that `row` came with is not used.
    pub fn insert_media(&mut self, row: MediaFile) -> (r: Result<i64, StoreError>)
        requires
            old(self)@.wf(),
        ensures
            final(self)@.wf(),
            match r {
                Ok(id) => fresh_key(old(self)@.media, i64::MAX as int) == Some(id as int)
                    && final(self)@ == (StoreView {
                    media: old(self)@.media.push((MediaFileView { id: id as int, ..row@ })),
                    ..old(self)@
                }),
                Err(e) => e == StoreError::Exhausted && fresh_key(old(self)@.media, i64::MAX as int)
                    is None && final(self)@ == old(self)@,
            },
    {
        let n: usize = self.media.len();
        let id: i64 = if n == 0 {
            1
        } else {
            let last: i64 = self.media[n - 1].id;
            if last == i64::MAX {
                return Err(StoreError::Exhausted);
            }
            assert(0 < self@.media[n - 1].key());
            last + 1
        };
        let mut row = row;
        row.id = id;
        proof {
            lemma_keyed_push(self@.media, row@, i64::MAX as int);
        }
        self.media.push(row);
        assert(self@.media =~= old(self)@.media.push(row@));
        Ok(id)
    }

    /// Takes the row at the index `at` out of the media file table.
    pub fn remove_media(&mut self, at: usize)
        requires
            old(self)@.wf(),
            at < old(self)@.media.len(),
        ensures
            final(self)@.wf(),
            final(self)@ == (StoreView {
                media: old(self)@.media.remove(at as int),
                ..old(self)@
            }),
    {
        proof {
            lemma_keyed_remove(self@.media, at as int);
        }
        self.media.remove(at);
        assert(self@.media =~= old(self)@.media.remove(at as int));
    }

    /// Puts `row` in the place of the row at the index `at`, which has the same identifier.
    pub fn replace_media(&mut self, at: usize, row: MediaFile)
        requires
            old(self)@.wf(),
            at < old(self)@.media.len(),
            row.id == old(self)@.media[at as int].id,
        ensures
            final(self)@.wf(),
            final(self)@ == (StoreView {
                media: old(self)@.media.update(at as int, row@),
                ..old(self)@
            }),
    {
        proof {
            lemma_keyed_update(self@.media, at as int, row@);
        }
        self.media.set(at, row);
        assert(self@.media =~= old(self)@.media.update(at as int, row@));
    }

    /// Where the association with the identifier `id` stands in its table.
    pub fn media_tag_position(&self, id: i64) -> (at: Option<usize>)
        ensures
            match at {
                Some(i) => i < self@.media_tags.len() && self@.media_tags[i as int].id == id,
                None => !has_key(self@.media_tags, id as int),
            },
    {
        let mut i: usize = 0;
        while i < self.media_tags.len()
            invariant
                i <= self.media_tags.len(),
                forall|j: int| 0 <= j < i ==> (#[trigger] self@.media_tags[j]).key() != id,
            decreases self.media_tags.len() - i,
        {
            if self.media_tags[i].id == id {
                return Some(i);
            }
            i += 1;
        }
        None
    }

    /// Appends `row` under the next identifier of its table, which is returned; the
    /// identifier that `row` came with is not used.
    pub fn insert_media_tag(&mut self, row: MediaTag) -> (r: Result<i64, StoreError>)
        requires
            old(self)@.wf(),
        ensures
            final(self)@.wf(),
            match r {
                Ok(id) => fresh_key(old(self)@.media_tags, i64::MAX as int) == Some(id as int)
                    && final(self)@ == (StoreView {
                    media_tags: old(self)@.media_tags.push((MediaTag { id, ..row })),
                    ..old(self)@
                }),
                Err(e) => e == StoreError::Exhausted && fresh_key(old(self)@.media_tags, i64::MAX as int)
                    is None && final(self)@ == old(self)@,
            },
    {
        let n: usize = self.media_tags.len();
        let id: i64 = if n == 0 {
            1
        } else {
            let last: i64 = self.media_tags[n - 1].id;
            if last == i64::MAX {
                return Err(StoreError::Exhausted);
            }
            assert(0 < self@.media_tags[n - 1].key());
            last + 1
        };
        let mut row = row;
        row.id = id;
        proof {
            lemma_keyed_push(self@.media_tags, row, i64::MAX as int);
        }
        self.media_tags.push(row);
        assert(self@.media_tags =~= old(self)@.media_tags.push(row));
        Ok(id)
    }

    /// Takes the row at the index `at` out of the association table.
    pub fn remove_media_tag(&mut self, at: usize)
        requires
            old(self)@.wf(),
            at < old(self)@.media_tags.len(),
        ensures
            final(self)@.wf(),
            final(self)@ == (StoreView {
                media_tags: old(self)@.media_tags.remove(at as int),
                ..old(self)@
            }),
    {
        proof {
            lemma_keyed_remove(self@.media_tags, at as int);
        }
        self.media_tags.remove(at);
        assert(self@.media_tags =~= old(self)@.media_tags.remove(at as int));
    }
}

} // verus!
