//! Own MP4 muxer: fragmented MP4 inputs (moov + moof/mdat, one track each, as YouTube serves
//! them) become one classic MP4 with the moov first and the tracks interleaved.
//!
//! - `boxes`: bytes and boxes (bounds-checked reading, building, walking the tree)
//! - `aac`: AAC frames, ADTS headers and the AudioSpecificConfig

pub mod aac;
pub mod boxes;
pub mod tables;
pub mod ilst;
pub mod moov;
pub mod mux;
pub mod track;
