use vstd::prelude::*;

verus! {

/// A category that groups tags.
#[derive(Debug)]
pub struct Category {
    /// Identifier, positive once stored.
    pub id: i32,
    /// The name of the category.
    pub name: String,
    /// The colour to display, as hexadecimal text.
    pub color: String,
    /// A description of the category.
    pub description: String,
}

/// What a [`Category`] holds, as mathematical values.
pub struct CategoryView {
    pub id: int,
    pub name: Seq<char>,
    pub color: Seq<char>,
    pub description: Seq<char>,
}

impl View for Category {
    type V = CategoryView;

    open spec fn view(&self) -> CategoryView {
        CategoryView {
            id: self.id as int,
            name: self.name@,
            color: self.color@,
            description: self.description@,
        }
    }
}

impl Clone for Category {
    fn clone(&self) -> (copy: Self)
        ensures
            copy@ == self@,
    {
        Category {
            id: self.id,
            name: self.name.clone(),
            color: self.color.clone(),
            description: self.description.clone(),
        }
    }
}

} // verus!
