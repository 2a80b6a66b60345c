use vstd::prelude::*;

verus! {

/// The association that records that a media file carries a tag.
#[derive(Clone, Copy, Debug, PartialEq, Eq)]
pub struct MediaTag {
    /// Identifier, positive once stored.
    pub id: i64,
    /// The media file.
    pub media_id: i64,
    /// The tag.
    pub tag_id: i32,
}

} // verus!
