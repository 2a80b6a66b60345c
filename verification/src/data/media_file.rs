use crate::text::same;
use vstd::prelude::*;

verus! {

/// The kind of a media file.
#[derive(Clone, Copy, Debug, PartialEq, Eq, Structural)]
pub enum MediaType {
    Unknown,
    Image,
    Video,
    Sound,
}

/// The kind that a stored text stands for: the three known words, and `Unknown` for
/// every other text.
pub open spec fn media_type_of(text: Seq<char>) -> MediaType {
    if text == "image"@ {
        MediaType::Image
    } else if text == "video"@ {
        MediaType::Video
    } else if text == "sound"@ {
        MediaType::Sound
    } else {
        MediaType::Unknown
    }
}

/// The text that is stored for a kind; `Unknown` is stored as the empty text.
pub open spec fn text_of(kind: MediaType) -> Seq<char> {
    match kind {
        MediaType::Image => "image"@,
        MediaType::Video => "video"@,
        MediaType::Sound => "sound"@,
        MediaType::Unknown => ""@,
    }
}

impl MediaType {
    /// Reads a stored text.
    pub fn from_text(text: &str) -> (kind: MediaType)
        ensures
            kind == media_type_of(text@),
    {
        if same(text, "image") {
            MediaType::Image
        } else if same(text, "video") {
            MediaType::Video
        } else if same(text, "sound") {
            MediaType::Sound
        } else {
            MediaType::Unknown
        }
    }

    /// The text to store.
    pub fn to_text(&self) -> (text: String)
        ensures
            text@ == text_of(*self),
    {
        match self {
            MediaType::Image => "image".to_owned(),
            MediaType::Video => "video".to_owned(),
            MediaType::Sound => "sound".to_owned(),
            MediaType::Unknown => "".to_owned(),
        }
    }
}

/// Storing a kind and reading it back gives the same kind, `Unknown` included.
pub proof fn lemma_media_type_round_trip(kind: MediaType)
    ensures
        media_type_of(text_of(kind)) == kind,
{
    reveal_strlit("image");
    reveal_strlit("video");
    reveal_strlit("sound");
    reveal_strlit("");
    assert("image"@.len() == 5 && "image"@[0] == 'i');
    assert("video"@.len() == 5 && "video"@[0] == 'v');
    assert("sound"@.len() == 5 && "sound"@[0] == 's');
    assert(""@.len() == 0);
}

/// Every text but the three known words reads as `Unknown`.
pub proof fn lemma_unrecognized_is_unknown(text: Seq<char>)
    requires
        text != "image"@,
        text != "video"@,
        text != "sound"@,
    ensures
        media_type_of(text) == MediaType::Unknown,
{
}

/// A size in kilobytes, held as the bit pattern of an IEEE 754 double.
#[derive(Clone, Copy, Debug, PartialEq, Eq, Structural)]
pub struct KiloBytes {
    pub bits: u64,
}

impl KiloBytes {
    /// Whether the number is greater than zero: the sign bit is clear, the pattern is
    /// not zero, and it is not past positive infinity (where the patterns are no numbers).
    pub open spec fn is_positive(self) -> bool {
        0 < self.bits <= 0x7FF0_0000_0000_0000u64
    }

    /// Whether the number is greater than zero.
    pub fn positive(&self) -> (b: bool)
        ensures
            b == self.is_positive(),
    {
        0 < self.bits && self.bits <= 0x7FF0_0000_0000_0000u64
    }
}

/// A media file found under a base path.
#[derive(Debug)]
pub struct MediaFile {
    /// Identifier, positive once stored.
    pub id: i64,
    /// The path relative to its base path, without slashes at either end.
    pub relative_path: String,
    /// The base path this file belongs to.
    pub base_path_id: i32,
    /// The width, for an image or a video.
    pub width: Option<i16>,
    /// The height, for an image or a video.
    pub height: Option<i16>,
    /// The size of the file in kilobytes.
    pub size: KiloBytes,
    /// The mark, from 1 to 10.
    pub mark: Option<i16>,
    /// A description of the file.
    pub description: String,
    /// The kind of the file.
    pub media_type: MediaType,
}

/// What a [`MediaFile`] holds, as mathematical values.
pub struct MediaFileView {
    pub id: int,
    pub relative_path: Seq<char>,
    pub base_path_id: int,
    pub width: Option<i16>,
    pub height: Option<i16>,
    pub size: KiloBytes,
    pub mark: Option<i16>,
    pub description: Seq<char>,
    pub media_type: MediaType,
}

impl View for MediaFile {
    type V = MediaFileView;

    open spec fn view(&self) -> MediaFileView {
        MediaFileView {
            id: self.id as int,
            relative_path: self.relative_path@,
            base_path_id: self.base_path_id as int,
            width: self.width,
            height: self.height,
            size: self.size,
            mark: self.mark,
            description: self.description@,
            media_type: self.media_type,
        }
    }
}

impl Clone for MediaFile {
    fn clone(&self) -> (copy: Self)
        ensures
            copy@ == self@,
    {
        MediaFile {
            id: self.id,
            relative_path: self.relative_path.clone(),
            base_path_id: self.base_path_id,
            width: self.width,
            height: self.height,
            size: self.size,
            mark: self.mark,
            description: self.description.clone(),
            media_type: self.media_type,
        }
    }
}

} // verus!
