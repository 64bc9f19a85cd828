pub mod adoption;
pub mod album_export;
pub mod album_artists;
pub mod cache_fill;
pub mod catalog;
pub mod cover_art_cache;
pub mod cover_mode_view;
pub mod cover_skin;
pub mod discord_bridge;
pub mod footer;
pub mod genres;
pub mod listing;
pub mod lyrics;
pub mod models;
pub mod ordering;
pub mod paths;
pub mod playlist;
pub mod remote;
pub mod scan;
pub mod scrobble_log;
pub mod text;
pub mod thumbnail;

pub use adoption::normalize_tag;
pub use models::{
    Album, AlbumSearchEntry, AlbumSummary, Artist, ArtistGrouping, ArtistSummary, CoverArt,
    LocalFolder, NewTrack, Playlist, PlaylistSummary, RemoteCover, RemoteSong, RemoteSource,
    RemoteSyncReport, ScanLyrics, ScanTrack, SourceSummary, StoredLyrics, Track, lyrics_source,
};

use vstd::prelude::*;

verus! {

/// The id under which tracks without album metadata are grouped.
pub const NO_METADATA_ALBUM_ID: i64 = -1;

/// The id under which tracks without artist metadata are grouped.
pub const NO_METADATA_ARTIST_ID: i64 = -2;

} // verus!
