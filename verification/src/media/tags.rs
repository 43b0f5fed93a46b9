//! Metadata shared by every audio format.

use vstd::prelude::*;

verus! {

/// Metadata written into the output file (title, artist, album, year and cover art).
pub struct Tags {
    pub title: String,
    pub artist: String,
    pub album: Option<String>,
    pub year: Option<String>,
    /// Cover image (JPEG or PNG)
    pub cover: Option<Vec<u8>>,
}

/// The cover is a PNG when it starts with 0x89 'P'; anything else is taken as JPEG.
pub open spec fn starts_png(c: Seq<u8>) -> bool {
    c.len() >= 2 && c[0] == 0x89 && c[1] == 0x50
}

pub fn is_png(c: &Vec<u8>) -> (r: bool)
    ensures
        r == starts_png(c@),
{
    c.len() >= 2 && c[0] == 0x89 && c[1] == 0x50
}

} // verus!
