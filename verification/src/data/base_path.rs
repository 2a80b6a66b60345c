use vstd::prelude::*;

verus! {

/// A registered root directory under which media files are tracked.
#[derive(Debug)]
pub struct BasePath {
    /// Identifier, positive once stored.
    pub id: i32,
    /// The absolute directory, without a trailing slash.
    pub base_path: String,
    /// A description of this root.
    pub description: String,
}

/// What a [`BasePath`] holds, as mathematical values.
pub struct BasePathView {
    pub id: int,
    pub base_path: Seq<char>,
    pub description: Seq<char>,
}

impl View for BasePath {
    type V = BasePathView;

    open spec fn view(&self) -> BasePathView {
        BasePathView { id: self.id as int, base_path: self.base_path@, description: self.description@ }
    }
}

impl Clone for BasePath {
    fn clone(&self) -> (copy: Self)
        ensures
            copy@ == self@,
    {
        BasePath {
            id: self.id,
            base_path: self.base_path.clone(),
            description: self.description.clone(),
        }
    }
}

} // verus!
