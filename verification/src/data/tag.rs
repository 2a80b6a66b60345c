use vstd::prelude::*;

verus! {

/// A tag, which belongs to one category.
#[derive(Debug)]
pub struct Tag {
    /// Identifier, positive once stored.
    pub id: i32,
    /// The name of the tag.
    pub name: String,
    /// The category this tag belongs to.
    pub category_id: i32,
    /// A description of the tag.
    pub description: String,
}

/// What a [`Tag`] holds, as mathematical values.
pub struct TagView {
    pub id: int,
    pub name: Seq<char>,
    pub category_id: int,
    pub description: Seq<char>,
}

impl View for Tag {
    type V = TagView;

    open spec fn view(&self) -> TagView {
        TagView {
            id: self.id as int,
            name: self.name@,
            category_id: self.category_id as int,
            description: self.description@,
        }
    }
}

impl Clone for Tag {
    fn clone(&self) -> (copy: Self)
        ensures
            copy@ == self@,
    {
        Tag {
            id: self.id,
            name: self.name.clone(),
            category_id: self.category_id,
            description: self.description.clone(),
        }
    }
}

} // verus!
