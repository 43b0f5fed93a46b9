//! Resonda: the verified core of a YouTube/Spotify downloader with its own MP4 muxer,
//! FLAC/WAV encoders and ID3 tagging.

pub mod cli;
pub mod ffi;
pub mod json;
pub mod media;
pub mod pipeline;
pub mod sources;
pub mod text;

use vstd::prelude::*;

verus! {

/// The user asked to stop the operation (not a failure).
#[derive(Debug, Clone, Copy, PartialEq, Eq)]
pub struct Cancelled;

impl Cancelled {
    /// Text shown for a cancellation.
    pub fn message(&self) -> (s: String)
        ensures
            s@ == "Cancelado"@,
    {
        String::from_str("Cancelado")
    }
}

} // verus!
