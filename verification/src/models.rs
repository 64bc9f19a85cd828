//! The records the library stores and hands out.
use vstd::prelude::*;
use crate::remote::{RemoteRef, is_remote, is_remote_spec, opt_ref_view, parse, parse_spec};

pub mod delivery_state;
pub mod lyrics_source;

verus! {

#[derive(Debug, Clone)]
pub struct CoverArt {
    pub id: i64,
    pub small: Vec<u8>,
    pub large: Vec<u8>,
}

#[derive(Debug, Clone, PartialEq, Eq)]
pub struct Artist {
    pub id: i64,
    pub name: String,
    pub sort_name: String,
}

#[derive(Debug, Clone, PartialEq, Eq)]
pub struct Album {
    pub id: i64,
    pub title: String,
    pub year: Option<i32>,
    pub cover_art_id: Option<i64>,
}

#[derive(Debug, Clone, PartialEq, Eq)]
pub struct Track {
    pub id: i64,
    pub path: String,
    pub title: String,
    pub album_id: Option<i64>,
    pub track_number: Option<i32>,
    pub disc_number: i32,
    pub duration_ms: Option<i64>,
    pub year: Option<i32>,
    pub cover_art_id: Option<i64>,
    pub start_offset_ms: i32,
    pub liked: bool,
    pub bitrate: Option<u32>,
    pub is_cue: bool,
    pub available: bool,
}

/// What a stored track is taken to be when it says nothing of its availability.
pub fn available_by_default() -> (r: bool)
    ensures
        r,
{
    true
}

impl Track {
    /// Whether the track lives on a media server rather than on disk.
    pub fn is_remote(&self) -> (r: bool)
        ensures
            r == is_remote_spec(self.path@),
    {
        is_remote(self.path.as_str())
    }

    /// The server reference of the track, when its path is a valid locator.
    pub fn remote(&self) -> (r: Option<RemoteRef>)
        ensures
            opt_ref_view(r) == parse_spec(self.path@),
    {
        parse(self.path.as_str())
    }
}

#[derive(Debug, Clone, PartialEq, Eq)]
pub struct AlbumSummary {
    pub id: i64,
    pub title: String,
    pub year: Option<i32>,
    pub cover_art_id: Option<i64>,
    pub artist_name: String,
    pub artist_id: Option<i64>,
}

#[derive(Debug, Clone, PartialEq, Eq)]
pub struct AlbumSearchEntry {
    pub album_id: i64,
    pub haystack: String,
}

#[derive(Debug, Clone, Copy, PartialEq, Eq, Default)]
pub enum ArtistGrouping {
    TrackArtist,
    #[default]
    AlbumArtist,
}

#[derive(Debug, Clone, PartialEq, Eq)]
pub struct ArtistSummary {
    pub id: i64,
    pub name: String,
    pub sort_name: String,
    pub track_count: i64,
}

#[derive(Debug, Clone, PartialEq, Eq)]
pub struct SourceSummary {
    pub id: i64,
    pub kind: String,
    pub uri: String,
    pub enabled: bool,
    pub available: bool,
    pub track_count: i64,
}

#[derive(Debug, Clone, PartialEq, Eq, Default)]
pub struct RemoteSong {
    pub key: String,
    pub title: String,
    pub artist: Option<String>,
    pub album: Option<String>,
    pub album_artist: Option<String>,
    pub track_number: Option<u32>,
    pub disc_number: Option<u32>,
    pub year: Option<i32>,
    pub genre: Option<String>,
    pub duration_ms: Option<i64>,
    pub size: Option<i64>,
    pub suffix: Option<String>,
    pub content_type: Option<String>,
    pub bitrate: Option<u32>,
    pub cover_key: Option<String>,
    pub cover_hash: Option<String>,
    pub artist_aliases: Vec<String>,
}

#[derive(Debug, Clone, Copy, PartialEq, Eq, Default)]
pub struct RemoteSyncReport {
    pub total: usize,
    pub added: usize,
    pub adopted: usize,
    pub retired: usize,
    pub updated: usize,
    pub revived: usize,
    pub became_available: bool,
}

impl RemoteSyncReport {
    /// Whether a sync changed anything at all.
    pub fn changed(&self) -> (r: bool)
        ensures
            r == (self.added + self.adopted + self.retired + self.updated + self.revived > 0
                || self.became_available),
    {
        self.added > 0 || self.adopted > 0 || self.retired > 0 || self.updated > 0 || self.revived
            > 0 || self.became_available
    }
}

#[derive(Debug, Clone, PartialEq, Eq)]
pub struct RemoteCover {
    pub hash: String,
    pub small: Vec<u8>,
    pub large: Vec<u8>,
    pub source_path: String,
}

#[derive(Debug, Clone, PartialEq, Eq)]
pub struct RemoteSource {
    pub uri: String,
    pub name: String,
}

#[derive(Debug, Clone, PartialEq, Eq)]
pub struct LocalFolder {
    pub path: String,
    pub available: bool,
}

#[derive(Debug, Clone, PartialEq, Eq, Default)]
pub struct NewTrack {
    pub path: String,
    pub title: Option<String>,
    pub album_title: Option<String>,
    pub artist_names: Vec<String>,
    pub track_number: Option<u32>,
    pub disc_number: Option<u32>,
    pub year: Option<i32>,
    pub duration_ms: Option<u64>,
    pub cover_art_id: Option<i64>,
    pub start_offset_ms: Option<u64>,
    pub bitrate: Option<u32>,
}

#[derive(Debug, Clone, PartialEq, Eq, Default)]
pub struct ScanLyrics {
    pub text: String,
    pub source: String,
}

#[derive(Debug, Clone, PartialEq, Eq)]
pub struct StoredLyrics {
    pub source: String,
    pub text: String,
    /// A remote lookup ran and found nothing: `text` is empty and the UI must
    /// not search again.
    pub not_found: bool,
}

/// A track ready for batched scan insertion. The cover is referenced by content
/// hash rather than by id, so the parse workers never touch the database.
#[derive(Debug, Clone, PartialEq, Eq, Default)]
pub struct ScanTrack {
    pub path: String,
    pub title: Option<String>,
    pub album_title: Option<String>,
    pub artist_names: Vec<String>,
    pub album_artist_names: Vec<String>,
    pub track_number: Option<u32>,
    pub disc_number: Option<u32>,
    pub year: Option<i32>,
    pub genres: Vec<String>,
    pub duration_ms: Option<u64>,
    pub cover_hash: Option<String>,
    pub start_offset_ms: Option<u64>,
    pub bitrate: Option<u32>,
    pub is_cue: bool,
    pub lyrics: Option<ScanLyrics>,
    pub file_size: Option<u64>,
}

#[derive(Debug, Clone, PartialEq, Eq)]
pub struct TrackArtist {
    pub track_id: i64,
    pub artist_id: i64,
    pub role: String,
    pub credited_as: Option<String>,
    pub position: i32,
}

#[derive(Debug, Clone, PartialEq, Eq)]
pub struct Playlist {
    pub id: i64,
    pub name: String,
    pub created_at: i64,
}

#[derive(Debug, Clone, PartialEq, Eq)]
pub struct PlaylistSummary {
    pub id: i64,
    pub name: String,
    pub created_at: i64,
    pub track_count: i64,
}

#[derive(Debug, Clone, PartialEq, Eq)]
pub struct NewPlay {
    pub track_id: Option<i64>,
    pub artist: String,
    pub title: String,
    pub album: Option<String>,
    pub album_artist: Option<String>,
    pub track_number: Option<u32>,
    pub duration_secs: Option<u64>,
    pub played_secs: Option<u64>,
    pub started_at: u64,
    pub qualified: bool,
}

#[derive(Debug, Clone, PartialEq, Eq)]
pub struct NewLove {
    pub track_id: Option<i64>,
    pub artist: String,
    pub title: String,
    pub loved: bool,
    pub at: u64,
}

#[derive(Debug, Clone, PartialEq, Eq)]
pub struct PendingPlay {
    pub id: i64,
    pub artist: String,
    pub title: String,
    pub album: Option<String>,
    pub album_artist: Option<String>,
    pub track_number: Option<u32>,
    pub duration_secs: Option<u64>,
    pub started_at: u64,
}

#[derive(Debug, Clone, PartialEq, Eq)]
pub struct PendingLove {
    pub id: i64,
    pub artist: String,
    pub title: String,
    pub loved: bool,
    pub at: u64,
}

#[derive(Debug, Clone, PartialEq, Eq)]
pub enum DeliveryOutcome {
    Sent,
    Dropped(String),
    Deferred(String),
}

} // verus!
