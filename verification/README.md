# resonda

Downloads YouTube videos as MP4 (or their audio as M4A, AAC, WAV, FLAC or MP3), and Spotify
songs, albums and playlists by finding each song on YouTube. It talks to YouTube's internal
API, downloads in ranged pieces in parallel, joins video and audio with its own MP4 muxer and
encodes FLAC and WAV itself.

- `src/` is the library, verified with Verus: the MP4 muxer (box reading and building, track
  parsing, sample tables, interleaving), the ADTS extractor, the FLAC and WAV encoders, the
  ID3 tag, the choice of formats, the requests sent to YouTube, the reading of YouTube's
  answers and of Spotify's pages (their JSON parsed by `serde_json` behind a trusted
  wrapper), the matching of a song with a video, the download plan, the command line and the
  decisions of the C interface.
- `app/` is the program around it: network, files, threads, the C interface itself, and the
  floating-point score of a candidate video.
- `tests/` runs the library on concrete inputs.

The outside crates: `rusty_mp3` encodes MP3, `symphonia` decodes AAC and `serde_json` reads
Spotify's data block (all called from the library through trusted wrappers); `ureq` and
`serde_json` are also used by the program.
