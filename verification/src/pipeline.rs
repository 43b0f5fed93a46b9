//! A whole download: which formats to fetch, and what the result is called. The download
//! itself (network, files, threads) is done by the program around this library.

use vstd::prelude::*;
use crate::media::tags::Tags;
use crate::sources::youtube::{Format, FormatView, VideoInfo, Kind, YtError, pick_formats, views_of, best_audio,
    top_height, best_video};
use crate::text::{chars_of, same_chars, append_text, string_of, is_ws, words, split_words, push_char, join_words, join_vec};
use crate::sources::spotify::{Track, join_with, join_strings, strings_view, opt_view};
use crate::sources::youtube::{SearchResult, result_view, results_view};

verus! {

/// Which part of a download is running.
#[derive(Clone, Copy, PartialEq, Eq, Debug, Structural)]
pub enum Stage {
    Video,
    Audio,
    Muxing,
}

/// Container of the final file.
#[derive(Clone, Copy, PartialEq, Eq, Debug, Structural)]
pub enum Output {
    /// MP4 (video + audio) or M4A (audio only), as the plan says
    Mp4,
    /// Raw AAC (.aac), audio only
    Adts,
    /// Uncompressed PCM (.wav), audio only
    Wav,
    /// Lossless (.flac), audio only
    Flac,
    /// MP3 (.mp3) at the given kbps (0 = 192), audio only
    Mp3(u32),
}

/// The file extension of an output: MP4 with only audio is M4A.
pub open spec fn extension_spec(o: Output, audio_only: bool) -> Seq<char> {
    match o {
        Output::Mp4 => if audio_only { "m4a"@ } else { "mp4"@ },
        Output::Adts => "aac"@,
        Output::Wav => "wav"@,
        Output::Flac => "flac"@,
        Output::Mp3(_) => "mp3"@,
    }
}

impl Output {
    /// The file extension. `audio_only` tells MP4 (video) from M4A (audio only in MP4).
    pub fn extension(self, audio_only: bool) -> (e: &'static str)
        ensures
            e@ == extension_spec(self, audio_only),
    {
        match self {
            Output::Mp4 => if audio_only { "m4a" } else { "mp4" },
            Output::Adts => "aac",
            Output::Wav => "wav",
            Output::Flac => "flac",
            Output::Mp3(_) => "mp3",
        }
    }
}

/// How to write the result: container and optional tags.
#[derive(Clone, Copy)]
pub struct Target<'a> {
    pub output: Output,
    pub tags: Option<&'a Tags>,
}

impl Target<'static> {
    /// Plain MP4 without tags.
    pub fn mp4() -> (t: Target<'static>)
        ensures
            t.output == Output::Mp4,
            t.tags is None,
    {
        Target { output: Output::Mp4, tags: None }
    }
}

/// What to download.
pub enum Plan {
    /// A complete MP4 from YouTube (video + audio, up to 360p): kept as it is.
    Direct(Format),
    /// Video and audio apart (or audio only), to be joined by our muxer.
    Merge { video: Option<Format>, audio: Format },
}

impl Plan {
    /// The expected bytes (video, audio) when all of them are known, for an overall progress.
    pub fn planned_bytes(&self) -> (r: Option<(u64, u64)>)
        ensures
            match self {
                Plan::Direct(f) => r == if f.size > 0 { Some((f.size, 0u64)) } else { None },
                Plan::Merge { video, audio } => r == if audio.size > 0 && (video matches Some(v) ==> v.size > 0) {
                    Some((if let Some(v) = video { v.size } else { 0u64 }, audio.size))
                } else {
                    None
                },
            },
    {
        match self {
            Plan::Direct(f) => {
                if f.size > 0 { Some((f.size, 0)) } else { None }
            }
            Plan::Merge { video, audio } => {
                let (v, known) = match video {
                    Some(v) => (v.size, v.size > 0),
                    None => (0, true),
                };
                if audio.size > 0 && known { Some((v, audio.size)) } else { None }
            }
        }
    }
}

/// The first complete MP4 at or under `max_height` among the first `n` formats.
pub open spec fn first_muxed(fs: Seq<FormatView>, n: nat, max_height: u32) -> Option<int>
    decreases n,
{
    if n == 0 {
        None
    } else {
        match first_muxed(fs, (n - 1) as nat, max_height) {
            Some(i) => Some(i),
            None => if fs[n - 1].kind == Kind::Muxed && fs[n - 1].height <= max_height { Some(n - 1) } else { None },
        }
    }
}

proof fn lemma_first_muxed_range(fs: Seq<FormatView>, n: nat, max_height: u32)
    requires
        n <= fs.len(),
    ensures
        first_muxed(fs, n, max_height) matches Some(i) ==> 0 <= i < n,
    decreases n,
{
    if n > 0 {
        lemma_first_muxed_range(fs, (n - 1) as nat, max_height);
    }
}

proof fn lemma_first_muxed_stable(fs: Seq<FormatView>, m: nat, n: nat, max_height: u32)
    requires
        m <= n,
        first_muxed(fs, m, max_height) is Some,
    ensures
        first_muxed(fs, n, max_height) == first_muxed(fs, m, max_height),
    decreases n - m,
{
    if m < n {
        lemma_first_muxed_stable(fs, m, (n - 1) as nat, max_height);
    }
}

/// What to download for a video: up to 360p with video, the first complete MP4 that fits;
/// otherwise the streams `pick_formats` chooses, to be joined.
pub fn plan(info: &VideoInfo, max_height: u32, audio_only: bool) -> (r: Result<Plan, YtError>)
    ensures
        ({
            let fs = views_of(info.formats@);
            let n = fs.len();
            if !audio_only && max_height <= 360 && first_muxed(fs, n, max_height) is Some {
                r matches Ok(Plan::Direct(f)) && f@ == fs[first_muxed(fs, n, max_height)->0]
            } else {
                match best_audio(fs, n) {
                    None => r == Err::<Plan, YtError>(YtError::NoAudio),
                    Some(a) => if audio_only {
                        r matches Ok(Plan::Merge { video: None, audio: af }) && af@ == fs[a]
                    } else {
                        match top_height(fs, n, max_height) {
                            None => r == Err::<Plan, YtError>(YtError::NoVideo(max_height)),
                            Some(top) => best_video(fs, n, max_height, top) matches Some(v)
                                && r matches Ok(Plan::Merge { video: Some(vf), audio: af }) && vf@ == fs[v] && af@ == fs[a],
                        }
                    },
                }
            }
        }),
{
    let fs = &info.formats;
    let ghost fv = views_of(fs@);
    if !audio_only && max_height <= 360 {
        let mut i: usize = 0;
        while i < fs.len()
            invariant
                i <= fs.len(),
                fv == views_of(fs@),
                fs@ == info.formats@,
                !audio_only,
                max_height <= 360,
                first_muxed(fv, i as nat, max_height) is None,
            decreases fs.len() - i,
        {
            assert(fv[i as int] == fs@[i as int]@);
            if fs[i].kind == Kind::Muxed && fs[i].height <= max_height {
                proof {
                    lemma_first_muxed_stable(fv, (i + 1) as nat, fv.len(), max_height);
                }
                return Ok(Plan::Direct(fs[i].duplicate()));
            }
            i = i + 1;
        }
    }
    let (video, audio) = pick_formats(info, max_height, audio_only)?;
    Ok(Plan::Merge { video, audio })
}

// ---------- file names ----------

/// Unicode control characters (general category Cc).
pub open spec fn is_cc(c: char) -> bool {
    c <= '\u{1f}' || ('\u{7f}' <= c && c <= '\u{9f}')
}

/// Characters that file systems refuse in names.
pub open spec fn forbidden(c: char) -> bool {
    c == '\\' || c == '/' || c == ':' || c == '*' || c == '?' || c == '"' || c == '<' || c == '>' || c == '|'
}

pub open spec fn clean_char(c: char) -> char {
    if is_cc(c) || forbidden(c) { '_' } else { c }
}

/// A file name from a title: control and forbidden characters become `_`, whitespace runs
/// become one space (none at the ends), at most 150 characters, and "video" if nothing is left.
pub open spec fn safe_name_spec(title: Seq<char>) -> Seq<char> {
    let name = join_words(words(title.map_values(|c: char| clean_char(c))));
    let cut = if name.len() > 150 { name.subrange(0, 150) } else { name };
    if cut.len() == 0 { "video"@ } else { cut }
}

/// A file name for a title (see `safe_name_spec`).
pub fn safe_name(title: &str) -> (r: String)
    ensures
        r@ == safe_name_spec(title@),
{
    let cs = chars_of(title);
    let mut cleaned: Vec<char> = Vec::new();
    let mut i: usize = 0;
    while i < cs.len()
        invariant
            i <= cs.len(),
            cleaned@ == cs@.subrange(0, i as int).map_values(|c: char| clean_char(c)),
        decreases cs.len() - i,
    {
        let c = cs[i];
        let bad = c <= '\u{1f}' || ('\u{7f}' <= c && c <= '\u{9f}') || c == '\\' || c == '/' || c == ':' || c == '*'
            || c == '?' || c == '"' || c == '<' || c == '>' || c == '|';
        cleaned.push(if bad { '_' } else { c });
        assert(cs@.subrange(0, i + 1).map_values(|c: char| clean_char(c))
            =~= cs@.subrange(0, i as int).map_values(|c: char| clean_char(c)).push(clean_char(c)));
        i = i + 1;
    }
    assert(cs@.subrange(0, i as int) =~= cs@);
    let ws = split_words(cleaned.as_slice());
    proof {
        assert(Seq::new(ws@.len(), |i: int| ws@[i]@) =~= words(cleaned@));
    }
    let name = join_vec(&ws);
    let cut_len: usize = if name.len() > 150 { 150 } else { name.len() };
    if cut_len == 0 {
        return String::from_str("video");
    }
    let mut out = String::new();
    let mut k: usize = 0;
    while k < cut_len
        invariant
            k <= cut_len,
            cut_len <= name.len(),
            out@ == name@.subrange(0, k as int),
        decreases cut_len - k,
    {
        push_char(&mut out, name[k]);
        assert(name@.subrange(0, k + 1) =~= name@.subrange(0, k as int).push(name@[k as int]));
        k = k + 1;
    }
    assert(name@.len() <= 150 ==> name@.subrange(0, k as int) =~= name@);
    out
}

/// The file name of a video: its safe title and the extension.
pub fn default_output(info: &VideoInfo, ext: &str) -> (name: String)
    ensures
        name@ == safe_name_spec(info.title@) + "."@ + ext@,
{
    let mut name = safe_name(info.title.as_str());
    append_text(&mut name, ".");
    append_text(&mut name, ext);
    name
}

/// A path with a suffix added to its last component (`video.mp4` → `video.mp4.part`).
pub fn with_suffix(path: &str, suffix: &str) -> (r: String)
    ensures
        r@ == path@ + suffix@,
{
    let mut r = String::from_str(path);
    append_text(&mut r, suffix);
    r
}

// ---------- Spotify songs (metadata from Spotify, audio from YouTube) ----------

/// The two searches tried for a song: "artists - title", then "main artist title topic"
/// (the auto-generated channel of the artist).
pub fn search_queries(track: &Track) -> (q: Vec<String>)
    ensures
        q@.len() == 2,
        q@[0]@ == join_with(strings_view(track.artists@), " "@) + " - "@ + track.title@,
        q@[1]@ == (if track.artists@.len() > 0 { track.artists@[0]@ } else { ""@ }) + " "@ + track.title@
            + " topic"@,
{
    let mut a = join_strings(&track.artists, " ");
    append_text(&mut a, " - ");
    append_text(&mut a, track.title.as_str());
    let mut b = String::from_str(track.main_artist());
    append_text(&mut b, " ");
    append_text(&mut b, track.title.as_str());
    append_text(&mut b, " topic");
    let mut q: Vec<String> = Vec::new();
    q.push(a);
    q.push(b);
    q
}

pub open spec fn has_id(p: Seq<(Seq<char>, Seq<char>, Seq<char>, u64)>, id: Seq<char>) -> bool {
    exists|i: int| 0 <= i < p.len() && #[trigger] p[i].0 == id
}

/// `pool` followed by each result of `found` whose id is not already there.
pub open spec fn merge_new(
    pool: Seq<(Seq<char>, Seq<char>, Seq<char>, u64)>,
    found: Seq<(Seq<char>, Seq<char>, Seq<char>, u64)>,
) -> Seq<(Seq<char>, Seq<char>, Seq<char>, u64)>
    decreases found.len(),
{
    if found.len() == 0 {
        pool
    } else {
        let m = merge_new(pool, found.drop_last());
        if has_id(m, found.last().0) { m } else { m.push(found.last()) }
    }
}

pub open spec fn distinct_ids(p: Seq<(Seq<char>, Seq<char>, Seq<char>, u64)>) -> bool {
    forall|i: int, j: int| 0 <= i < j < p.len() ==> #[trigger] p[i].0 != #[trigger] p[j].0
}

/// Merging search results never lists a video twice: a pool without repeated videos stays
/// without them, and it keeps every video it had and gains every video found.
pub proof fn lemma_merge_distinct(
    pool: Seq<(Seq<char>, Seq<char>, Seq<char>, u64)>,
    found: Seq<(Seq<char>, Seq<char>, Seq<char>, u64)>,
)
    requires
        distinct_ids(pool),
    ensures
        distinct_ids(merge_new(pool, found)),
        merge_new(pool, found).len() >= pool.len(),
        merge_new(pool, found).subrange(0, pool.len() as int) == pool,
        forall|i: int| 0 <= i < found.len() ==> has_id(merge_new(pool, found), #[trigger] found[i].0),
    decreases found.len(),
{
    if found.len() > 0 {
        let f0 = found.drop_last();
        lemma_merge_distinct(pool, f0);
        let m = merge_new(pool, f0);
        let x = found.last();
        if !has_id(m, x.0) {
            let m2 = m.push(x);
            assert forall|i: int, j: int| 0 <= i < j < m2.len() implies #[trigger] m2[i].0 != #[trigger] m2[j].0 by {
                if j == m.len() {
                    assert(m2[i] == m[i]);
                }
            }
            assert(m2.subrange(0, pool.len() as int) =~= m.subrange(0, pool.len() as int));
            assert forall|i: int| 0 <= i < found.len() implies has_id(m2, #[trigger] found[i].0) by {
                if i < found.len() - 1 {
                    assert(f0[i] == found[i]);
                    let k = choose|k: int| 0 <= k < m.len() && #[trigger] m[k].0 == f0[i].0;
                    assert(m2[k].0 == found[i].0);
                } else {
                    assert(m2[m.len() as int].0 == found[i].0);
                }
            }
        } else {
            assert forall|i: int| 0 <= i < found.len() implies has_id(m, #[trigger] found[i].0) by {
                if i < found.len() - 1 {
                    assert(f0[i] == found[i]);
                }
            }
        }
    } else {
        assert(pool.subrange(0, pool.len() as int) =~= pool);
    }
}

/// Adds the results of a search to the pool of candidates, skipping videos already in it.
pub fn add_new_results(pool: &mut Vec<SearchResult>, found: &Vec<SearchResult>)
    ensures
        results_view(final(pool)@) == merge_new(results_view(old(pool)@), results_view(found@)),
{
    let ghost p0 = results_view(pool@);
    let ghost fv = results_view(found@);
    let mut k: usize = 0;
    while k < found.len()
        invariant
            k <= found.len(),
            fv == results_view(found@),
            results_view(pool@) == merge_new(p0, fv.take(k as int)),
        decreases found.len() - k,
    {
        let r = &found[k];
        let rid = chars_of(r.id.as_str());
        let mut seen = false;
        let mut j: usize = 0;
        while j < pool.len()
            invariant
                j <= pool.len(),
                rid@ == r.id@,
                seen == exists|i: int| 0 <= i < j && #[trigger] pool@[i].id@ == r.id@,
            decreases pool.len() - j,
        {
            let pid = chars_of(pool[j].id.as_str());
            if same_chars(pid.as_slice(), rid.as_slice()) {
                seen = true;
            }
            j = j + 1;
        }
        proof {
            let m = results_view(pool@);
            assert(fv.take(k as int + 1).drop_last() =~= fv.take(k as int));
            assert(fv.take(k as int + 1).last() == result_view(*r));
            if seen {
                let i = choose|i: int| 0 <= i < pool@.len() && #[trigger] pool@[i].id@ == r.id@;
                assert(m[i].0 == r.id@);
            } else {
                assert forall|i: int| 0 <= i < m.len() implies #[trigger] m[i].0 != r.id@ by {
                    assert(m[i].0 == pool@[i].id@);
                }
            }
        }
        if !seen {
            let c = SearchResult { id: r.id.clone(), title: r.title.clone(), channel: r.channel.clone(), seconds: r.seconds };
            let ghost before = pool@;
            pool.push(c);
            proof {
                assert(results_view(pool@) =~= results_view(before).push(result_view(*r)));
            }
        }
        k = k + 1;
    }
    proof {
        assert(fv.take(k as int) =~= fv);
    }
}

/// The tags of a Spotify song: its title, its artists joined by ", ", album, year and the
/// cover fetched for it.
pub fn song_tags(track: &Track, cover: Option<Vec<u8>>) -> (t: Tags)
    ensures
        t.title@ == track.title@,
        t.artist@ == join_with(strings_view(track.artists@), ", "@),
        opt_view(t.album) == opt_view(track.album),
        opt_view(t.year) == opt_view(track.year),
        t.cover == cover,
{
    Tags {
        title: track.title.clone(),
        artist: join_strings(&track.artists, ", "),
        album: match &track.album {
            Some(a) => Some(a.clone()),
            None => None,
        },
        year: match &track.year {
            Some(y) => Some(y.clone()),
            None => None,
        },
        cover,
    }
}

/// The file name of a Spotify song: its safe label ("artists - title") and the extension.
pub fn song_file_name(track: &Track, ext: &str) -> (name: String)
    ensures
        name@ == safe_name_spec(join_with(strings_view(track.artists@), ", "@) + " - "@ + track.title@) + "."@
            + ext@,
{
    let label = track.label();
    let mut name = safe_name(label.as_str());
    append_text(&mut name, ".");
    append_text(&mut name, ext);
    name
}

} // verus!
