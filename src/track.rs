//! The metadata kept for each track of the library.

use vstd::prelude::*;

verus! {

/// A track of the library: where it came from and how it is catalogued.
#[derive(Clone, Debug)]
pub struct TrackInfo {
    /// The identifier of the source video.
    pub id: String,
    pub upload_date: String,
    /// The title of the source video.
    pub yt_title: String,
    /// The channel that published the source video.
    pub yt_channel: String,
    pub track_title: String,
    pub track_artist: String,
    pub track_origin: String,
    pub tags: Vec<String>,
}

} // verus!
