//! The structured metadata records a file can carry. The container treats
//! metadata as one opaque byte chunk; these are the typed records an
//! application serializes into it. They are plain data with no invariants
//! of their own.

use vstd::prelude::*;

verus! {

/// What an attached picture shows, after the ID3 picture types.
#[derive(Debug, Clone, Copy, PartialEq, Eq, Structural)]
pub enum PictureType {
    Other,
    FileIcon,
    OtherFileIcon,
    CoverFront,
    CoverBack,
    LeafletPage,
    Media,
    LeadArtist,
    Artist,
    Conductor,
    Band,
    Composer,
    Lyricist,
    RecordingLocation,
    DuringRecording,
    DuringPerformance,
    VideoScreenCapture,
    BrightColouredFish,
    Illustration,
    BandLogo,
    PublisherLogo,
}

/// An attached picture.
#[derive(Debug, Clone, PartialEq, Eq)]
pub struct Picture {
    pub mime_type: String,
    pub picture_type: PictureType,
    pub description: Option<String>,
    pub data: Vec<u8>,
}

/// A comment with an optional language and description.
#[derive(Debug, Clone, PartialEq, Eq)]
pub struct Comment {
    pub language: Option<String>,
    pub description: Option<String>,
    pub text: String,
}

/// Unsynchronized lyrics.
#[derive(Debug, Clone, PartialEq, Eq)]
pub struct Lyrics {
    pub language: Option<String>,
    pub description: Option<String>,
    pub text: String,
}

/// What a synchronized-lyrics track carries.
#[derive(Debug, Clone, Copy, PartialEq, Eq, Structural)]
pub enum SyncedLyricsContentType {
    Other,
    Lyrics,
    TextTranscription,
    PartName,
    Events,
    Chord,
    Trivia,
    WebpageUrl,
    ImageUrl,
}

/// One timed line of synchronized lyrics.
#[derive(Debug, Clone, PartialEq, Eq)]
pub struct SyncedLyricsLine {
    pub timestamp_ms: u64,
    pub text: String,
}

/// Synchronized lyrics: timed lines with a content type.
#[derive(Debug, Clone, PartialEq, Eq)]
pub struct SyncedLyrics {
    pub language: Option<String>,
    pub content_type: SyncedLyricsContentType,
    pub description: Option<String>,
    pub lines: Vec<SyncedLyricsLine>,
}

/// A user-defined text field.
#[derive(Debug, Clone, PartialEq, Eq)]
pub struct UserText {
    pub description: String,
    pub value: String,
}

/// A user-defined link.
#[derive(Debug, Clone, PartialEq, Eq)]
pub struct UserUrl {
    pub description: String,
    pub url: String,
}

/// A rating with an optional play counter.
#[derive(Debug, Clone, PartialEq, Eq)]
pub struct Popularimeter {
    pub email: Option<String>,
    pub rating: u8,
    pub play_count: Option<u64>,
}

/// The kind of one section of a track.
#[derive(Debug, Clone, Copy, PartialEq, Eq, Structural)]
pub enum SectionType {
    Intro,
    Verse,
    PreChorus,
    Chorus,
    PostChorus,
    Bridge,
    Breakdown,
    Drop,
    Buildup,
    Solo,
    Instrumental,
    Outro,
    Silence,
    Other,
}

/// A labelled position in the track's structure.
#[derive(Debug, Clone, PartialEq, Eq)]
pub struct SectionMarker {
    pub timestamp_ms: u64,
    pub section_type: SectionType,
    pub label: Option<String>,
}

/// A key change at a point in time.
#[derive(Debug, Clone, PartialEq, Eq)]
pub struct KeyChange {
    pub timestamp_ms: u64,
    pub key: String,
}

/// A note from the track's creator, optionally tied to a moment.
#[derive(Debug, Clone, PartialEq, Eq)]
pub struct CreatorNote {
    pub timestamp_ms: Option<u64>,
    pub text: String,
}

/// A credit naming who did what, optionally tied to a moment.
#[derive(Debug, Clone, PartialEq, Eq)]
pub struct CollaborationCredit {
    pub role: String,
    pub name: String,
    pub timestamp_ms: Option<u64>,
}

/// One step in a remix or sampling lineage.
#[derive(Debug, Clone, PartialEq, Eq)]
pub struct RemixChainEntry {
    pub title: String,
    pub artist: String,
    pub year: Option<u32>,
    pub isrc: Option<String>,
    pub relationship: String,
}

/// Animated cover art.
#[derive(Debug, Clone, PartialEq, Eq)]
pub struct AnimatedCover {
    pub mime_type: String,
    pub data: Vec<u8>,
    pub duration_ms: Option<u32>,
    pub loop_count: Option<u32>,
}

/// Which pressing or edition a cover variant shows.
#[derive(Debug, Clone, Copy, PartialEq, Eq, Structural)]
pub enum CoverVariantType {
    Standard,
    Explicit,
    Clean,
    Remix,
    Deluxe,
    Limited,
    Vinyl,
    Cassette,
    Digital,
    Other,
}

/// An alternative cover image.
#[derive(Debug, Clone, PartialEq, Eq)]
pub struct CoverVariant {
    pub variant_type: CoverVariantType,
    pub mime_type: String,
    pub data: Vec<u8>,
    pub description: Option<String>,
}

} // verus!
