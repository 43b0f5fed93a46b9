//! Where media comes from: YouTube (formats and search) and Spotify (metadata), and how a
//! Spotify song is matched with the right YouTube video.

pub mod download;
pub mod matching;
pub mod spotify;
pub mod youtube;
