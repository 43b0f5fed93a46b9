//! Output formats: MP4/M4A/AAC (own muxer), WAV, FLAC (own encoder) and MP3.
//! `pcm` turns the AAC from YouTube into PCM that feeds WAV, FLAC and MP3.

pub mod bits;
pub mod bytes;
pub mod flac;
pub mod mp3;
pub mod mp4;
pub mod pcm;
pub mod tags;
pub mod wav;

pub use tags::Tags;
