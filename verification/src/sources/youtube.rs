//! YouTube: video ids, formats and which ones to download.

use vstd::prelude::*;
use crate::text::{occurs_in, lemma_sub_occurs, lemma_occurs_trans, lemma_before_occurs, lemma_split_once_occurs, chars_of, same_chars, append_text, same_str, string_of, decimal, decimal_string, strip, strip_prefix, before, before_char,
    split_once, split_once_char, find_char, lemma_find_char, lemma_find_char_range, starts, after_sub, after_str, split_all,
    split_chars, trim, trim_chars, parse_u64_spec, parse_u64, before_sub, before_str, slice_vec};
use crate::json::{lemma_member_at, lemma_member_absent, Json, member, member_of, text, field, item, str_of, u64_of, bool_of, arr_of, val, get, at, as_str, as_u64, as_bool, as_array};

verus! {

/// What a format holds.
#[derive(Clone, Copy, PartialEq, Eq, Debug, Structural)]
pub enum Kind {
    Video,
    Audio,
    /// A complete MP4 (video + audio), only up to 360p
    Muxed,
}

/// A downloadable stream of a video.
pub struct Format {
    pub itag: u32,
    pub url: String,
    pub kind: Kind,
    /// avc1, av01, mp4a...
    pub codec: String,
    pub height: u32,
    pub fps: u32,
    pub bitrate: u64,
    pub size: u64,
}

pub struct FormatView {
    pub itag: u32,
    pub url: Seq<char>,
    pub kind: Kind,
    pub codec: Seq<char>,
    pub height: u32,
    pub fps: u32,
    pub bitrate: u64,
    pub size: u64,
}

impl View for Format {
    type V = FormatView;

    open spec fn view(&self) -> FormatView {
        FormatView {
            itag: self.itag,
            url: self.url@,
            kind: self.kind,
            codec: self.codec@,
            height: self.height,
            fps: self.fps,
            bitrate: self.bitrate,
            size: self.size,
        }
    }
}

impl Format {
    /// A copy of the format.
    pub fn duplicate(&self) -> (f: Format)
        ensures
            f@ == self@,
    {
        Format {
            itag: self.itag,
            url: self.url.clone(),
            kind: self.kind,
            codec: self.codec.clone(),
            height: self.height,
            fps: self.fps,
            bitrate: self.bitrate,
            size: self.size,
        }
    }
}

/// Title, length and downloadable formats of a video, and the user agent that may fetch them.
pub struct VideoInfo {
    pub id: String,
    pub title: String,
    pub seconds: u64,
    pub formats: Vec<Format>,
    pub ua: String,
}

/// A video found by a search.
pub struct SearchResult {
    pub id: String,
    pub title: String,
    pub channel: String,
    pub seconds: u64,
}

/// Why a video id or the formats to download could not be had.
#[derive(Debug, PartialEq, Eq)]
pub enum YtError {
    /// The input is neither a YouTube URL nor an id.
    NotYoutube(String),
    /// A YouTube URL without a video id.
    NoId(String),
    /// No AAC audio stream.
    NoAudio,
    /// No video stream at or under this height.
    NoVideo(u32),
}

impl YtError {
    pub fn message(&self) -> (m: String)
        ensures
            match self {
                YtError::NotYoutube(i) => m@ == "\""@ + i@ + "\" no parece una URL ni un ID de YouTube"@,
                YtError::NoId(i) => m@ == "No encuentro el ID del vídeo en \""@ + i@ + "\""@,
                YtError::NoAudio => m@ == "No hay pista de audio AAC disponible"@,
                YtError::NoVideo(h) => m@ == "No hay vídeo de "@ + decimal(*h as nat) + "p o menos"@,
            },
    {
        match self {
            YtError::NotYoutube(i) => {
                let mut m = String::from_str("\"");
                append_text(&mut m, i.as_str());
                append_text(&mut m, "\" no parece una URL ni un ID de YouTube");
                m
            }
            YtError::NoId(i) => {
                let mut m = String::from_str("No encuentro el ID del vídeo en \"");
                append_text(&mut m, i.as_str());
                append_text(&mut m, "\"");
                m
            }
            YtError::NoAudio => String::from_str("No hay pista de audio AAC disponible"),
            YtError::NoVideo(h) => {
                let mut m = String::from_str("No hay vídeo de ");
                let d = decimal_string(*h as u64);
                append_text(&mut m, d.as_str());
                append_text(&mut m, "p o menos");
                m
            }
        }
    }
}

// ---------- video ids ----------

pub open spec fn id_char(c: char) -> bool {
    ('a' <= c && c <= 'z') || ('A' <= c && c <= 'Z') || ('0' <= c && c <= '9') || c == '_' || c == '-'
}

/// A video id: 11 characters out of letters, digits, `_` and `-`.
pub open spec fn yt_id(s: Seq<char>) -> bool {
    s.len() == 11 && forall|i: int| 0 <= i < 11 ==> id_char(#[trigger] s[i])
}

fn is_id_chars(s: &[char]) -> (r: bool)
    ensures
        r == yt_id(s@),
{
    if s.len() != 11 {
        return false;
    }
    let mut i: usize = 0;
    while i < 11
        invariant
            i <= 11,
            s.len() == 11,
            forall|j: int| 0 <= j < i ==> id_char(#[trigger] s@[j]),
        decreases 11 - i,
    {
        let c = s[i];
        if !(('a' <= c && c <= 'z') || ('A' <= c && c <= 'Z') || ('0' <= c && c <= '9') || c == '_' || c == '-') {
            return false;
        }
        i = i + 1;
    }
    true
}

/// Whether `s` is a video id.
pub fn is_id(s: &str) -> (r: bool)
    ensures
        r == yt_id(s@),
{
    is_id_chars(chars_of(s).as_slice())
}

/// `s` with every leading copy of `p` removed.
pub open spec fn trim_start_all(s: Seq<char>, p: Seq<char>) -> Seq<char>
    decreases s.len(),
{
    if p.len() > 0 && starts(s, p) { trim_start_all(s.subrange(p.len() as int, s.len() as int), p) } else { s }
}

/// The value of the first `v=` parameter of a query string.
pub open spec fn query_v(q: Seq<char>) -> Option<Seq<char>>
    decreases q.len(),
{
    match strip(before(q, '&'), "v="@) {
        Some(v) => Some(v),
        None => match split_once(q, '&') {
            Some((_, rest)) => {
                proof {
                    lemma_find_char_range(q, '&');
                }
                query_v(rest)
            },
            None => None,
        },
    }
}

/// The id in a `youtube.com` path such as `/shorts/ID`, `/embed/ID`, `/live/ID` or `/v/ID`.
pub open spec fn path_id(path: Seq<char>) -> Option<Seq<char>> {
    let first = before(path, '/');
    match split_once(path, '/') {
        Some((_, rest)) => if first == "shorts"@ || first == "embed"@ || first == "live"@ || first == "v"@ {
            Some(before(rest, '/'))
        } else {
            None
        },
        None => None,
    }
}

/// The `v=` value of a query occurs in the query.
proof fn lemma_query_v_occurs(q: Seq<char>)
    ensures
        query_v(q) matches Some(v) ==> occurs_in(v, q),
    decreases q.len(),
{
    let b = before(q, '&');
    lemma_before_occurs(q, '&');
    match strip(b, "v="@) {
        Some(v) => {
            lemma_sub_occurs(b, "v="@.len() as int, b.len() as int);
            lemma_occurs_trans(v, b, q);
        },
        None => {
            lemma_split_once_occurs(q, '&');
            match split_once(q, '&') {
                Some((_, rest)) => {
                    lemma_query_v_occurs(rest);
                    if query_v(rest) is Some {
                        lemma_occurs_trans(query_v(rest)->0, rest, q);
                    }
                },
                None => {},
            }
        },
    }
}

/// The id of a `youtube.com` path occurs in the path.
proof fn lemma_path_id_occurs(path: Seq<char>)
    ensures
        path_id(path) matches Some(p) ==> occurs_in(p, path),
{
    lemma_split_once_occurs(path, '/');
    match split_once(path, '/') {
        Some((_, rest)) => {
            lemma_before_occurs(rest, '/');
            lemma_occurs_trans(before(rest, '/'), rest, path);
        },
        None => {},
    }
}

/// The video id read from an input is 11 letters, digits, `_` or `-` that stand in the input
/// itself.
#[verifier::rlimit(40)]
pub proof fn lemma_video_id_in_input(input: Seq<char>)
    ensures
        video_id_spec(input) matches Ok(id) ==> yt_id(id) && occurs_in(id, input),
{
    if yt_id(input) {
        lemma_sub_occurs(input, 0, input.len() as int);
        assert(input.subrange(0, input.len() as int) =~= input);
    } else {
        let rest = match strip(input, "https://"@) {
            Some(r) => r,
            None => match strip(input, "http://"@) { Some(r) => r, None => input },
        };
        assert(occurs_in(rest, input)) by {
            match strip(input, "https://"@) {
                Some(r) => { lemma_sub_occurs(input, "https://"@.len() as int, input.len() as int); },
                None => match strip(input, "http://"@) {
                    Some(r) => { lemma_sub_occurs(input, "http://"@.len() as int, input.len() as int); },
                    None => { lemma_sub_occurs(input, 0, input.len() as int); assert(input.subrange(0, input.len() as int) =~= input); },
                },
            }
        }
        lemma_split_once_occurs(rest, '/');
        let (host0, path_query) = match split_once(rest, '/') { Some(p) => p, None => (rest, Seq::empty()) };
        assert(occurs_in(path_query, rest)) by {
            if split_once(rest, '/') is None {
                lemma_sub_occurs(rest, 0, 0);
                assert(rest.subrange(0, 0) =~= Seq::<char>::empty());
            }
        }
        lemma_split_once_occurs(path_query, '?');
        let (path0, query0) = match split_once(path_query, '?') { Some(p) => p, None => (path_query, Seq::empty()) };
        assert(occurs_in(path0, path_query) && occurs_in(query0, path_query)) by {
            if split_once(path_query, '?') is None {
                lemma_sub_occurs(path_query, 0, 0);
                lemma_sub_occurs(path_query, 0, path_query.len() as int);
                assert(path_query.subrange(0, 0) =~= Seq::<char>::empty());
                assert(path_query.subrange(0, path_query.len() as int) =~= path_query);
            }
        }
        let query = before(query0, '#');
        let path = before(path0, '#');
        lemma_before_occurs(query0, '#');
        lemma_before_occurs(path0, '#');
        lemma_occurs_trans(query, query0, path_query);
        lemma_occurs_trans(path, path0, path_query);
        lemma_occurs_trans(query, path_query, rest);
        lemma_occurs_trans(path, path_query, rest);
        lemma_occurs_trans(query, rest, input);
        lemma_occurs_trans(path, rest, input);
        let host = trim_start_all(trim_start_all(trim_start_all(host0, "www."@), "m."@), "music."@);
        if host == "youtu.be"@ {
            lemma_before_occurs(path, '/');
            lemma_occurs_trans(before(path, '/'), path, input);
        } else if host == "youtube.com"@ {
            lemma_query_v_occurs(query);
            lemma_path_id_occurs(path);
            match query_v(query) {
                Some(v) => { lemma_occurs_trans(v, query, input); },
                None => match path_id(path) {
                    Some(q) => { lemma_occurs_trans(q, path, input); },
                    None => {},
                },
            }
        }
    }
}

/// Why an input gives no video id.
#[derive(Clone, Copy, PartialEq, Eq, Debug)]
pub enum IdFault {
    NotYoutube,
    NoId,
}

/// The video id in an id, a `youtu.be/ID` link or a `youtube.com` link (`watch?v=ID`,
/// `shorts/ID`, ...), with or without scheme and `www.`, `m.` or `music.`.
pub open spec fn video_id_spec(input: Seq<char>) -> Result<Seq<char>, IdFault> {
    if yt_id(input) {
        Ok(input)
    } else {
        let rest = match strip(input, "https://"@) {
            Some(r) => r,
            None => match strip(input, "http://"@) { Some(r) => r, None => input },
        };
        let (host0, path_query) = match split_once(rest, '/') { Some(p) => p, None => (rest, Seq::empty()) };
        let host = trim_start_all(trim_start_all(trim_start_all(host0, "www."@), "m."@), "music."@);
        let (path0, query0) = match split_once(path_query, '?') { Some(p) => p, None => (path_query, Seq::empty()) };
        let query = before(query0, '#');
        let path = before(path0, '#');
        let id = if host == "youtu.be"@ {
            Some(before(path, '/'))
        } else if host == "youtube.com"@ {
            Some(match query_v(query) {
                Some(v) => v,
                None => match path_id(path) { Some(p) => p, None => Seq::empty() },
            })
        } else {
            None
        };
        match id {
            None => Err(IdFault::NotYoutube),
            Some(id) => if yt_id(id) { Ok(id) } else { Err(IdFault::NoId) },
        }
    }
}

proof fn lemma_no_char(s: Seq<char>, c: char)
    requires
        forall|i: int| 0 <= i < s.len() ==> s[i] != c,
    ensures
        find_char(s, c) is None,
        before(s, c) == s,
        split_once(s, c) is None,
{
    lemma_find_char(s, c, s.len() as int);
}

/// A `youtu.be` link built from a video id reads back as that id.
pub proof fn lemma_short_link_reads_back(id: Seq<char>)
    requires
        yt_id(id),
    ensures
        video_id_spec("https://youtu.be/"@ + id) == Ok::<Seq<char>, IdFault>(id),
{
    reveal_strlit("https://youtu.be/");
    reveal_strlit("https://");
    reveal_strlit("youtu.be");
    reveal_strlit("www.");
    reveal_strlit("m.");
    reveal_strlit("music.");
    let u = "https://youtu.be/"@ + id;
    assert(!yt_id(u));
    let rest = "youtu.be/"@ + id;
    reveal_strlit("youtu.be/");
    assert(u.subrange(0, 8) =~= "https://"@);
    assert(u.subrange(8, u.len() as int) =~= rest);
    assert forall|j: int| 0 <= j < 8 implies rest[j] != '/' by {}
    lemma_find_char(rest, '/', 8);
    assert(rest.subrange(0, 8) =~= "youtu.be"@);
    assert(rest.subrange(9, rest.len() as int) =~= id);
    let h = "youtu.be"@;
    assert(!starts(h, "www."@)) by {
        if starts(h, "www."@) {
            assert(h.subrange(0, 4)[0] == "www."@[0]);
        }
    }
    assert(!starts(h, "m."@)) by {
        if starts(h, "m."@) {
            assert(h.subrange(0, 2)[0] == "m."@[0]);
        }
    }
    assert(!starts(h, "music."@)) by {
        if starts(h, "music."@) {
            assert(h.subrange(0, 6)[0] == "music."@[0]);
        }
    }
    assert(trim_start_all(h, "www."@) == h);
    assert(trim_start_all(h, "m."@) == h);
    assert(trim_start_all(h, "music."@) == h);
    assert forall|i: int| 0 <= i < id.len() implies id[i] != '?' && id[i] != '#' && id[i] != '/' by {
        assert(id_char(id[i]));
    }
    lemma_no_char(id, '?');
    lemma_no_char(id, '#');
    lemma_no_char(id, '/');
}

/// A `watch?v=` link built from a video id reads back as that id.
pub proof fn lemma_watch_link_reads_back(id: Seq<char>)
    requires
        yt_id(id),
    ensures
        video_id_spec("https://www.youtube.com/watch?v="@ + id) == Ok::<Seq<char>, IdFault>(id),
{
    reveal_strlit("https://www.youtube.com/watch?v=");
    reveal_strlit("https://");
    reveal_strlit("www.youtube.com/watch?v=");
    reveal_strlit("www.youtube.com");
    reveal_strlit("youtube.com");
    reveal_strlit("youtu.be");
    reveal_strlit("watch?v=");
    reveal_strlit("watch");
    reveal_strlit("v=");
    reveal_strlit("www.");
    reveal_strlit("m.");
    reveal_strlit("music.");
    let u = "https://www.youtube.com/watch?v="@ + id;
    assert(!yt_id(u));
    let rest = "www.youtube.com/watch?v="@ + id;
    assert(u.subrange(0, 8) =~= "https://"@);
    assert(u.subrange(8, u.len() as int) =~= rest);
    assert forall|j: int| 0 <= j < 15 implies rest[j] != '/' by {}
    lemma_find_char(rest, '/', 15);
    let h0 = "www.youtube.com"@;
    assert(rest.subrange(0, 15) =~= h0);
    let pq = "watch?v="@ + id;
    assert(rest.subrange(16, rest.len() as int) =~= pq);
    let h = "youtube.com"@;
    assert(starts(h0, "www."@)) by {
        assert(h0.subrange(0, 4) =~= "www."@);
    }
    assert(h0.subrange(4, h0.len() as int) =~= h);
    assert(!starts(h, "www."@)) by {
        if starts(h, "www."@) {
            assert(h.subrange(0, 4)[0] == "www."@[0]);
        }
    }
    assert(trim_start_all(h, "www."@) == h);
    assert(trim_start_all(h0, "www."@) == h);
    assert(!starts(h, "m."@)) by {
        if starts(h, "m."@) {
            assert(h.subrange(0, 2)[0] == "m."@[0]);
        }
    }
    assert(!starts(h, "music."@)) by {
        if starts(h, "music."@) {
            assert(h.subrange(0, 6)[0] == "music."@[0]);
        }
    }
    assert(trim_start_all(h, "m."@) == h);
    assert(trim_start_all(h, "music."@) == h);
    assert(h != "youtu.be"@) by {
        assert(h.len() != "youtu.be"@.len());
    }
    assert forall|j: int| 0 <= j < 5 implies pq[j] != '?' by {}
    lemma_find_char(pq, '?', 5);
    let q = "v="@ + id;
    assert(pq.subrange(0, 5) =~= "watch"@);
    assert(pq.subrange(6, pq.len() as int) =~= q);
    assert forall|i: int| 0 <= i < q.len() implies q[i] != '#' && q[i] != '&' by {
        if i >= 2 {
            assert(q[i] == id[i - 2]);
            assert(id_char(id[i - 2]));
        }
    }
    lemma_no_char(q, '#');
    lemma_no_char(q, '&');
    assert forall|i: int| 0 <= i < 5 implies "watch"@[i] != '#' by {}
    lemma_no_char("watch"@, '#');
    assert(q.subrange(0, 2) =~= "v="@);
    assert(q.subrange(2, q.len() as int) =~= id);
    assert(strip(q, "v="@) == Some(id));
    assert(query_v(q) == Some(id));
}

fn trim_start_all_exec(s: Vec<char>, p: &str) -> (r: Vec<char>)
    ensures
        r@ == trim_start_all(s@, p@),
    decreases s.len(),
{
    let pc = chars_of(p);
    if pc.len() > 0 {
        match strip_prefix(s.as_slice(), pc.as_slice()) {
            Some(t) => trim_start_all_exec(t, p),
            None => s,
        }
    } else {
        s
    }
}

fn query_v_exec(q: &[char]) -> (r: Option<Vec<char>>)
    ensures
        match query_v(q@) {
            Some(v) => r matches Some(x) && x@ == v,
            None => r is None,
        },
    decreases q.len(),
{
    let kv = before_char(q, '&');
    let vp = chars_of("v=");
    match strip_prefix(kv.as_slice(), vp.as_slice()) {
        Some(v) => Some(v),
        None => {
            proof {
                lemma_find_char_range(q@, '&');
            }
            match split_once_char(q, '&') {
                Some((_, rest)) => query_v_exec(rest.as_slice()),
                None => None,
            }
        }
    }
}

fn path_id_exec(path: &[char]) -> (r: Option<Vec<char>>)
    ensures
        match path_id(path@) {
            Some(v) => r matches Some(x) && x@ == v,
            None => r is None,
        },
{
    let first = before_char(path, '/');
    match split_once_char(path, '/') {
        Some((_, rest)) => {
            let f = first.as_slice();
            if same_chars(f, chars_of("shorts").as_slice()) || same_chars(f, chars_of("embed").as_slice())
                || same_chars(f, chars_of("live").as_slice()) || same_chars(f, chars_of("v").as_slice()) {
                Some(before_char(rest.as_slice(), '/'))
            } else {
                None
            }
        }
        None => None,
    }
}

/// The video id in `input` (an id or a YouTube link).
pub fn parse_video_id(input: &str) -> (r: Result<String, YtError>)
    ensures
        match video_id_spec(input@) {
            Ok(id) => r matches Ok(s) && s@ == id,
            Err(IdFault::NotYoutube) => r matches Err(YtError::NotYoutube(s)) && s@ == input@,
            Err(IdFault::NoId) => r matches Err(YtError::NoId(s)) && s@ == input@,
        },
{
    let all = chars_of(input);
    if is_id_chars(all.as_slice()) {
        return Ok(string_of(all.as_slice()));
    }
    let rest = match strip_prefix(all.as_slice(), chars_of("https://").as_slice()) {
        Some(r) => r,
        None => match strip_prefix(all.as_slice(), chars_of("http://").as_slice()) {
            Some(r) => r,
            None => all,
        },
    };
    let (host0, path_query) = match split_once_char(rest.as_slice(), '/') {
        Some(p) => p,
        None => (rest, Vec::new()),
    };
    let host = trim_start_all_exec(trim_start_all_exec(trim_start_all_exec(host0, "www."), "m."), "music.");
    let (path0, query0) = match split_once_char(path_query.as_slice(), '?') {
        Some(p) => p,
        None => (path_query, Vec::new()),
    };
    let query = before_char(query0.as_slice(), '#');
    let path = before_char(path0.as_slice(), '#');
    let id = if same_chars(host.as_slice(), chars_of("youtu.be").as_slice()) {
        before_char(path.as_slice(), '/')
    } else if same_chars(host.as_slice(), chars_of("youtube.com").as_slice()) {
        match query_v_exec(query.as_slice()) {
            Some(v) => v,
            None => match path_id_exec(path.as_slice()) {
                Some(p) => p,
                None => Vec::new(),
            },
        }
    } else {
        return Err(YtError::NotYoutube(string_of(chars_of(input).as_slice())));
    };
    if is_id_chars(id.as_slice()) {
        Ok(string_of(id.as_slice()))
    } else {
        Err(YtError::NoId(string_of(chars_of(input).as_slice())))
    }
}

// ---------- choosing formats ----------

pub open spec fn aac_audio(f: FormatView) -> bool {
    f.kind == Kind::Audio && f.codec == "mp4a"@
}

/// A video stream we can mux (H.264 or AV1) at or under `max_height`.
pub open spec fn usable_video(f: FormatView, max_height: u32) -> bool {
    f.kind == Kind::Video && (f.codec == "avc1"@ || f.codec == "av01"@) && f.height <= max_height
}

pub open spec fn views_of(fs: Seq<Format>) -> Seq<FormatView> {
    Seq::new(fs.len(), |i: int| fs[i]@)
}

/// The last AAC audio stream with the highest bitrate among the first `n` formats.
pub open spec fn best_audio(fs: Seq<FormatView>, n: nat) -> Option<int>
    decreases n,
{
    if n == 0 {
        None
    } else {
        let r = best_audio(fs, (n - 1) as nat);
        let i = n - 1;
        if aac_audio(fs[i]) && (r matches Some(j) ==> fs[i].bitrate >= fs[j].bitrate) { Some(i) } else { r }
    }
}

/// The greatest height of the usable video streams among the first `n` formats.
pub open spec fn top_height(fs: Seq<FormatView>, n: nat, max_height: u32) -> Option<u32>
    decreases n,
{
    if n == 0 {
        None
    } else {
        let r = top_height(fs, (n - 1) as nat, max_height);
        let f = fs[n - 1];
        if usable_video(f, max_height) && (r matches Some(h) ==> f.height >= h) { Some(f.height) } else { r }
    }
}

/// Video preference at equal height: H.264 first (it plays everywhere), then frame rate,
/// then bitrate.
pub open spec fn video_ge(a: FormatView, b: FormatView) -> bool {
    let (aa, ba) = (a.codec == "avc1"@, b.codec == "avc1"@);
    (aa && !ba) || (aa == ba && (a.fps > b.fps || (a.fps == b.fps && a.bitrate >= b.bitrate)))
}

/// The last most preferred usable video stream of height `top` among the first `n` formats.
pub open spec fn best_video(fs: Seq<FormatView>, n: nat, max_height: u32, top: u32) -> Option<int>
    decreases n,
{
    if n == 0 {
        None
    } else {
        let r = best_video(fs, (n - 1) as nat, max_height, top);
        let i = n - 1;
        if usable_video(fs[i], max_height) && fs[i].height == top && (r matches Some(j) ==> video_ge(fs[i], fs[j])) {
            Some(i)
        } else {
            r
        }
    }
}

pub(crate) fn codec_is(f: &Format, c: &str) -> (r: bool)
    ensures
        r == (f.codec@ == c@),
{
    let a = chars_of(f.codec.as_str());
    let b = chars_of(c);
    same_chars(a.as_slice(), b.as_slice())
}

proof fn lemma_best_audio_range(fs: Seq<FormatView>, n: nat)
    requires
        n <= fs.len(),
    ensures
        best_audio(fs, n) matches Some(i) ==> 0 <= i < n,
    decreases n,
{
    if n > 0 {
        lemma_best_audio_range(fs, (n - 1) as nat);
    }
}

proof fn lemma_best_video_range(fs: Seq<FormatView>, n: nat, max_height: u32, top: u32)
    requires
        n <= fs.len(),
    ensures
        best_video(fs, n, max_height, top) matches Some(i) ==> 0 <= i < n,
    decreases n,
{
    if n > 0 {
        lemma_best_video_range(fs, (n - 1) as nat, max_height, top);
    }
}

/// What to download: the AAC audio with the highest bitrate and, unless only audio is wanted,
/// the tallest video at or under `max_height`, preferring H.264 (it plays everywhere; above
/// 1080p YouTube only offers AV1), then frame rate, then bitrate. Among equals, the last.
pub fn pick_formats(info: &VideoInfo, max_height: u32, audio_only: bool) -> (r: Result<(Option<Format>, Format), YtError>)
    ensures
        ({
            let fs = views_of(info.formats@);
            let n = fs.len();
            match best_audio(fs, n) {
                None => r == Err::<(Option<Format>, Format), YtError>(YtError::NoAudio),
                Some(a) => if audio_only {
                    r matches Ok((None, af)) && af@ == fs[a]
                } else {
                    match top_height(fs, n, max_height) {
                        None => r == Err::<(Option<Format>, Format), YtError>(YtError::NoVideo(max_height)),
                        Some(top) => best_video(fs, n, max_height, top) matches Some(v)
                            && r matches Ok((Some(vf), af)) && vf@ == fs[v] && af@ == fs[a],
                    }
                },
            }
        }),
{
    let fs = &info.formats;
    let ghost fv = views_of(fs@);
    let mut audio: Option<usize> = None;
    let mut i: usize = 0;
    while i < fs.len()
        invariant
            i <= fs.len(),
            fv == views_of(fs@),
            audio == match best_audio(fv, i as nat) { Some(j) => Some(j as usize), None => None::<usize> },
            best_audio(fv, i as nat) matches Some(j) ==> 0 <= j < i,
        decreases fs.len() - i,
    {
        let f = &fs[i];
        assert(fv[i as int] == f@);
        let ok = f.kind == Kind::Audio && codec_is(f, "mp4a");
        let better = match audio {
            None => true,
            Some(j) => {
                assert(fv[j as int] == fs@[j as int]@);
                f.bitrate >= fs[j].bitrate
            }
        };
        if ok && better {
            audio = Some(i);
        }
        i = i + 1;
    }
    let a = match audio {
        None => {
            return Err(YtError::NoAudio);
        }
        Some(a) => a,
    };
    assert(fv[a as int] == fs@[a as int]@);
    let af = fs[a].duplicate();
    if audio_only {
        return Ok((None, af));
    }
    let mut top: Option<u32> = None;
    let mut k: usize = 0;
    while k < fs.len()
        invariant
            k <= fs.len(),
            fv == views_of(fs@),
            top == top_height(fv, k as nat, max_height),
        decreases fs.len() - k,
    {
        let f = &fs[k];
        assert(fv[k as int] == f@);
        let ok = f.kind == Kind::Video && (codec_is(f, "avc1") || codec_is(f, "av01")) && f.height <= max_height;
        let taller = match top {
            None => true,
            Some(h) => f.height >= h,
        };
        if ok && taller {
            top = Some(f.height);
        }
        k = k + 1;
    }
    let t = match top {
        None => {
            return Err(YtError::NoVideo(max_height));
        }
        Some(t) => t,
    };
    let mut video: Option<usize> = None;
    let mut m: usize = 0;
    while m < fs.len()
        invariant
            m <= fs.len(),
            fv == views_of(fs@),
            video == match best_video(fv, m as nat, max_height, t) { Some(j) => Some(j as usize), None => None::<usize> },
            best_video(fv, m as nat, max_height, t) matches Some(j) ==> 0 <= j < m,
        decreases fs.len() - m,
    {
        let f = &fs[m];
        assert(fv[m as int] == f@);
        let ok = f.kind == Kind::Video && (codec_is(f, "avc1") || codec_is(f, "av01")) && f.height <= max_height
            && f.height == t;
        let better = match video {
            None => true,
            Some(j) => {
                let g = &fs[j];
                assert(fv[j as int] == g@);
                let fa = codec_is(f, "avc1");
                let ga = codec_is(g, "avc1");
                (fa && !ga) || (fa == ga && (f.fps > g.fps || (f.fps == g.fps && f.bitrate >= g.bitrate)))
            }
        };
        if ok && better {
            video = Some(m);
        }
        m = m + 1;
    }
    proof {
        lemma_top_has_video(fv, fv.len(), max_height);
    }
    let v = match video {
        Some(v) => v,
        None => {
            return Err(YtError::NoVideo(max_height));
        }
    };
    assert(fv[v as int] == fs@[v as int]@);
    Ok((Some(fs[v].duplicate()), af))
}

/// When a top height exists, some usable video has it, so a best one exists.
proof fn lemma_top_has_video(fs: Seq<FormatView>, n: nat, max_height: u32)
    requires
        n <= fs.len(),
    ensures
        top_height(fs, n, max_height) matches Some(t) ==> best_video(fs, n, max_height, t) is Some,
    decreases n,
{
    if n > 0 {
        lemma_top_has_video(fs, (n - 1) as nat, max_height);
        let r = top_height(fs, (n - 1) as nat, max_height);
        if let Some(t) = top_height(fs, n, max_height) {
            if usable_video(fs[n - 1], max_height) && (r matches Some(h) ==> fs[n - 1].height >= h) {
                assert(fs[n - 1].height == t);
            } else {
                lemma_best_video_grows(fs, (n - 1) as nat, max_height, t);
            }
        }
    }
}

proof fn lemma_best_video_grows(fs: Seq<FormatView>, n: nat, max_height: u32, t: u32)
    requires
        n + 1 <= fs.len(),
        best_video(fs, n, max_height, t) is Some,
    ensures
        best_video(fs, n + 1, max_height, t) is Some,
{
}

// ---------- pages and search results ----------

/// What follows the first `start` in `s`.
pub fn between(s: &str, start: &str) -> (r: Option<String>)
    ensures
        match after_sub(s@, start@) {
            Some(t) => r matches Some(v) && v@ == t,
            None => r is None,
        },
{
    match after_str(chars_of(s).as_slice(), chars_of(start).as_slice()) {
        Some(v) => Some(string_of(v.as_slice())),
        None => None,
    }
}

/// A clock read as seconds: each piece between `:` (trimmed) is a number and the next base-60
/// digit; `None` when a piece is not a number.
pub open spec fn clock_fold(ps: Seq<Seq<char>>) -> Option<nat>
    decreases ps.len(),
{
    if ps.len() == 0 {
        Some(0)
    } else {
        match clock_fold(ps.drop_last()) {
            None => None,
            Some(t) => match parse_u64_spec(trim(ps.last())) {
                None => None,
                Some(v) => Some(t * 60 + v as nat),
            },
        }
    }
}

/// "3:34" or "1:02:03" as seconds, when it fits in 64 bits.
pub open spec fn clock_spec(s: Seq<char>) -> Option<u64> {
    match clock_fold(split_all(s, ':')) {
        Some(t) => if t <= u64::MAX { Some(t as u64) } else { None },
        None => None,
    }
}

/// Once a clock is too large it stays too large (or goes bad).
proof fn lemma_clock_grows(ps: Seq<Seq<char>>, k: int)
    requires
        0 <= k <= ps.len(),
        clock_fold(ps.subrange(0, k)) matches Some(t) && t > u64::MAX,
    ensures
        clock_fold(ps) matches Some(t) ==> t > u64::MAX,
    decreases ps.len() - k,
{
    if k < ps.len() {
        assert(ps.subrange(0, k + 1).drop_last() =~= ps.subrange(0, k));
        if clock_fold(ps.subrange(0, k + 1)) is Some {
            lemma_clock_grows(ps, k + 1);
        } else {
            lemma_clock_bad(ps, k + 1);
        }
    } else {
        assert(ps.subrange(0, k) =~= ps);
    }
}

/// Once a piece is bad the clock is bad.
proof fn lemma_clock_bad(ps: Seq<Seq<char>>, k: int)
    requires
        0 <= k <= ps.len(),
        clock_fold(ps.subrange(0, k)) is None,
    ensures
        clock_fold(ps) is None,
    decreases ps.len() - k,
{
    if k < ps.len() {
        assert(ps.subrange(0, k + 1).drop_last() =~= ps.subrange(0, k));
        lemma_clock_bad(ps, k + 1);
    } else {
        assert(ps.subrange(0, k) =~= ps);
    }
}

/// "3:34" or "1:02:03" as seconds.
pub fn parse_clock(s: &str) -> (r: Option<u64>)
    ensures
        r == clock_spec(s@),
{
    let parts = split_chars(chars_of(s).as_slice(), ':');
    let ghost ps = split_all(s@, ':');
    assert(parts@.len() == ps.len());
    let mut total: u64 = 0;
    let mut i: usize = 0;
    while i < parts.len()
        invariant
            i <= parts.len(),
            parts@.len() == ps.len(),
            ps == split_all(s@, ':'),
            forall|j: int| 0 <= j < parts@.len() ==> #[trigger] parts@[j]@ == ps[j],
            clock_fold(ps.subrange(0, i as int)) == Some(total as nat),
        decreases parts.len() - i,
    {
        assert(ps.subrange(0, i + 1).drop_last() =~= ps.subrange(0, i as int));
        assert(ps.subrange(0, i + 1).last() == parts@[i as int]@);
        let t = trim_chars(parts[i].as_slice());
        let v = match parse_u64(t.as_slice()) {
            Some(v) => v,
            None => {
                proof {
                    lemma_clock_bad(ps, i + 1);
                }
                return None;
            }
        };
        if total > (0xFFFF_FFFF_FFFF_FFFF - v) / 60 {
            proof {
                assert(total * 60 + v > 0xFFFF_FFFF_FFFF_FFFFu64) by (nonlinear_arith)
                    requires total > (0xFFFF_FFFF_FFFF_FFFFu64 - v) / 60;
                lemma_clock_grows(ps, i + 1);
            }
            return None;
        }
        assert(total * 60 + v <= 0xFFFF_FFFF_FFFF_FFFFu64) by (nonlinear_arith)
            requires total <= (0xFFFF_FFFF_FFFF_FFFFu64 - v) / 60;
        total = total * 60 + v;
        i = i + 1;
    }
    assert(ps.subrange(0, i as int) =~= ps);
    Some(total)
}

// ---------- reading the player's answer ----------

/// The codecs of a MIME type's parameters: what follows the first `codecs="`, up to the next
/// `codecs="` and then up to the first `"`.
pub open spec fn codecs_of(params: Seq<char>) -> Option<Seq<char>> {
    match after_sub(params, "codecs=\""@) {
        Some(rest) => Some(before(before_sub(rest, "codecs=\""@), '"')),
        None => None,
    }
}

/// The kind of a stream: everything in the muxed list is muxed; otherwise the MIME type's
/// top-level type says video or (anything else) audio.
pub open spec fn kind_for(muxed: bool, top: Seq<char>) -> Kind {
    if muxed {
        Kind::Muxed
    } else if top == "video"@ {
        Kind::Video
    } else {
        Kind::Audio
    }
}

pub open spec fn or_zero(o: Option<u64>) -> u64 {
    match o {
        Some(v) => v,
        None => 0,
    }
}

/// A stream of the player's answer as a format: MP4 streams only, with a URL, codecs and an
/// itag; the height and frame rate are cut to 32 bits, missing numbers count as zero and a
/// size that is not a number as unknown (zero).
pub open spec fn normalize_spec(f: Option<Json>, muxed: bool) -> Option<FormatView> {
    match (str_of(field(f, "mimeType"@)), str_of(field(f, "url"@))) {
        (Some(mime), Some(url)) => match split_once(mime, ';') {
            Some((typ, params)) => match split_once(typ, '/') {
                Some((top, container)) => if container != "mp4"@ {
                    None
                } else {
                    match (codecs_of(params), u64_of(field(f, "itag"@))) {
                        (Some(codecs), Some(itag)) => Some(FormatView {
                            itag: itag as u32,
                            url,
                            kind: kind_for(muxed, top),
                            codec: before(codecs, '.'),
                            height: or_zero(u64_of(field(f, "height"@))) as u32,
                            fps: or_zero(u64_of(field(f, "fps"@))) as u32,
                            bitrate: or_zero(u64_of(field(f, "bitrate"@))),
                            size: match str_of(field(f, "contentLength"@)) {
                                Some(t) => or_zero(parse_u64_spec(t)),
                                None => 0,
                            },
                        }),
                        _ => None,
                    }
                },
                None => None,
            },
            None => None,
        },
        _ => None,
    }
}

fn cut32(v: u64) -> (r: u32)
    ensures
        r == v as u32,
{
    #[verifier::truncate]
    (v as u32)
}

/// A stream of the player's answer as a format (see `normalize_spec`).
pub fn normalize(f: &Json, muxed: bool) -> (r: Option<Format>)
    ensures
        match normalize_spec(Some(*f), muxed) {
            Some(v) => r matches Some(x) && x@ == v,
            None => r is None,
        },
{
    let fo = Some(f);
    let mime = match as_str(get(fo, "mimeType")) {
        Some(m) => chars_of(m),
        None => {
            return None;
        }
    };
    let url = match as_str(get(fo, "url")) {
        Some(u) => u,
        None => {
            return None;
        }
    };
    let (typ, params) = match split_once_char(mime.as_slice(), ';') {
        Some(p) => p,
        None => {
            return None;
        }
    };
    let (top, container) = match split_once_char(typ.as_slice(), '/') {
        Some(p) => p,
        None => {
            return None;
        }
    };
    if !same_str(container.as_slice(), "mp4") {
        return None;
    }
    let cq = chars_of("codecs=\"");
    let codecs = match after_str(params.as_slice(), cq.as_slice()) {
        Some(rest) => before_char(before_str(rest.as_slice(), cq.as_slice()).as_slice(), '"'),
        None => {
            return None;
        }
    };
    let itag = match as_u64(get(fo, "itag")) {
        Some(i) => i,
        None => {
            return None;
        }
    };
    let kind = if muxed {
        Kind::Muxed
    } else if same_str(top.as_slice(), "video") {
        Kind::Video
    } else {
        Kind::Audio
    };
    let height = match as_u64(get(fo, "height")) {
        Some(h) => h,
        None => 0,
    };
    let fps = match as_u64(get(fo, "fps")) {
        Some(v) => v,
        None => 0,
    };
    let bitrate = match as_u64(get(fo, "bitrate")) {
        Some(b) => b,
        None => 0,
    };
    let size = match as_str(get(fo, "contentLength")) {
        Some(t) => match parse_u64(chars_of(t).as_slice()) {
            Some(n) => n,
            None => 0,
        },
        None => 0,
    };
    Some(Format {
        itag: cut32(itag),
        url: String::from_str(url),
        kind,
        codec: string_of(before_char(codecs.as_slice(), '.').as_slice()),
        height: cut32(height),
        fps: cut32(fps),
        bitrate,
        size,
    })
}

/// The formats read from the streams of a list, in order, skipping those that do not read.
pub open spec fn normalized(items: Seq<Json>, muxed: bool) -> Seq<FormatView>
    decreases items.len(),
{
    if items.len() == 0 {
        Seq::empty()
    } else {
        normalized(items.drop_last(), muxed) + match normalize_spec(Some(items.last()), muxed) {
            Some(f) => seq![f],
            None => Seq::empty(),
        }
    }
}

/// The formats of `streamingData.<key>` of a player's answer (none when it is not a list).
pub open spec fn stream_list(p: Json, key: Seq<char>, muxed: bool) -> Seq<FormatView> {
    match arr_of(field(field(Some(p), "streamingData"@), key)) {
        Some(items) => normalized(items, muxed),
        None => Seq::empty(),
    }
}

fn stream_formats(p: &Json, key: &str, muxed: bool) -> (r: Vec<Format>)
    ensures
        views_of(r@) == stream_list(*p, key@, muxed),
{
    let mut out: Vec<Format> = Vec::new();
    let items = match as_array(get(get(Some(p), "streamingData"), key)) {
        Some(a) => a,
        None => {
            assert(views_of(out@) =~= Seq::<FormatView>::empty());
            return out;
        }
    };
    let mut i: usize = 0;
    while i < items.len()
        invariant
            i <= items.len(),
            arr_of(field(field(Some(*p), "streamingData"@), key@)) == Some(items@),
            views_of(out@) == normalized(items@.take(i as int), muxed),
        decreases items.len() - i,
    {
        assert(items@.take(i as int + 1).drop_last() =~= items@.take(i as int));
        assert(items@.take(i as int + 1).last() == items@[i as int]);
        let ghost before = views_of(out@);
        match normalize(&items[i], muxed) {
            Some(f) => {
                out.push(f);
                assert(views_of(out@) =~= before + seq![f@]);
            },
            None => {
                assert(views_of(out@) =~= before + Seq::<FormatView>::empty());
            },
        }
        i = i + 1;
    }
    assert(items@.take(i as int) =~= items@);
    out
}

/// Why a client's answer gives no video.
#[derive(Debug)]
pub enum PlayerError {
    /// The video is not playable: the status and the reason given.
    Unplayable(String, String),
    /// A live stream.
    Live,
    /// The client gave no MP4 video and audio streams (the client's name).
    NoStreams(String),
}

impl PlayerError {
    pub fn message(&self) -> (m: String)
        ensures
            match self {
                PlayerError::Unplayable(st, why) => m@ == st@ + ": "@ + why@,
                PlayerError::Live => m@ == "Los directos no están soportados"@,
                PlayerError::NoStreams(c) => m@ == "El cliente "@ + c@ + " no devolvió formatos MP4 de vídeo y audio"@,
            },
    {
        match self {
            PlayerError::Unplayable(st, why) => {
                let mut m = st.clone();
                append_text(&mut m, ": ");
                append_text(&mut m, why.as_str());
                m
            },
            PlayerError::Live => String::from_str("Los directos no están soportados"),
            PlayerError::NoStreams(c) => {
                let mut m = String::from_str("El cliente ");
                append_text(&mut m, c.as_str());
                append_text(&mut m, " no devolvió formatos MP4 de vídeo y audio");
                m
            },
        }
    }
}

pub open spec fn str_or(o: Option<Seq<char>>, d: Seq<char>) -> Seq<char> {
    match o {
        Some(s) => s,
        None => d,
    }
}

pub open spec fn has_kind(fs: Seq<FormatView>, k: Kind) -> bool {
    exists|i: int| 0 <= i < fs.len() && #[trigger] fs[i].kind == k
}

fn any_kind(fs: &Vec<Format>, k: Kind) -> (r: bool)
    ensures
        r == has_kind(views_of(fs@), k),
{
    let mut i: usize = 0;
    while i < fs.len()
        invariant
            i <= fs.len(),
            forall|j: int| 0 <= j < i ==> #[trigger] fs@[j].kind != k,
        decreases fs.len() - i,
    {
        if fs[i].kind == k {
            assert(views_of(fs@)[i as int].kind == k);
            return true;
        }
        i = i + 1;
    }
    assert forall|j: int| 0 <= j < views_of(fs@).len() implies #[trigger] views_of(fs@)[j].kind != k by {
        assert(views_of(fs@)[j] == fs@[j]@);
    }
    false
}

fn text_or(j: Option<&Json>, d: &str) -> (r: String)
    ensures
        r@ == str_or(str_of(val(j)), d@),
{
    match as_str(j) {
        Some(s) => String::from_str(s),
        None => String::from_str(d),
    }
}

/// What the player's answer `p` to client `client` (with user agent `ua`) says of video
/// `id`: an error when the video is not playable or is a live stream, or when the client
/// gave no MP4 video and audio streams; else its title (the id when missing), its length
/// (zero when not a number) and the adaptive formats followed by the muxed ones.
pub fn video_info_of(id: &str, client: &str, ua: &str, p: &Json) -> (r: Result<VideoInfo, PlayerError>)
    ensures
        ({
            let st = field(Some(*p), "playabilityStatus"@);
            let details = field(Some(*p), "videoDetails"@);
            let adaptive = stream_list(*p, "adaptiveFormats"@, false);
            if str_of(field(st, "status"@)) != Some("OK"@) {
                r matches Err(PlayerError::Unplayable(a, b)) && a@ == str_or(str_of(field(st, "status"@)), "ERROR"@)
                    && b@ == str_or(str_of(field(st, "reason"@)), "vídeo no disponible"@)
            } else if bool_of(field(details, "isLive"@)) == Some(true) {
                r matches Err(PlayerError::Live)
            } else if !has_kind(adaptive, Kind::Video) || !has_kind(adaptive, Kind::Audio) {
                r matches Err(PlayerError::NoStreams(c)) && c@ == client@
            } else {
                r matches Ok(info) && info.id@ == id@ && info.ua@ == ua@
                    && info.title@ == str_or(str_of(field(details, "title"@)), id@)
                    && info.seconds == match str_of(field(details, "lengthSeconds"@)) {
                        Some(t) => or_zero(parse_u64_spec(t)),
                        None => 0,
                    }
                    && views_of(info.formats@) == adaptive + stream_list(*p, "formats"@, true)
            }
        }),
{
    let po = Some(p);
    let st = get(po, "playabilityStatus");
    let status = as_str(get(st, "status"));
    let ok = match status {
        Some(s) => same_str(chars_of(s).as_slice(), "OK"),
        None => false,
    };
    if !ok {
        return Err(PlayerError::Unplayable(text_or(get(st, "status"), "ERROR"), text_or(get(st, "reason"), "vídeo no disponible")));
    }
    let details = get(po, "videoDetails");
    if as_bool(get(details, "isLive")) == Some(true) {
        return Err(PlayerError::Live);
    }
    let mut formats = stream_formats(p, "adaptiveFormats", false);
    if !any_kind(&formats, Kind::Video) || !any_kind(&formats, Kind::Audio) {
        return Err(PlayerError::NoStreams(String::from_str(client)));
    }
    let ghost adaptive = views_of(formats@);
    let mut muxed = stream_formats(p, "formats", true);
    let ghost mv = views_of(muxed@);
    formats.append(&mut muxed);
    assert(views_of(formats@) =~= adaptive + mv);
    let seconds = match as_str(get(details, "lengthSeconds")) {
        Some(t) => match parse_u64(chars_of(t).as_slice()) {
            Some(n) => n,
            None => 0,
        },
        None => 0,
    };
    Ok(VideoInfo { id: String::from_str(id), title: text_or(get(details, "title"), id), seconds, formats, ua: String::from_str(ua) })
}

/// The smallest video stream of known size (the first of equals), by its index.
pub open spec fn smallest_video(fs: Seq<FormatView>, n: nat) -> Option<int>
    decreases n,
{
    if n == 0 {
        None
    } else {
        let r = smallest_video(fs, (n - 1) as nat);
        let i = n - 1;
        if fs[i].kind == Kind::Video && fs[i].size > 0 && (r matches Some(j) ==> fs[i].size < fs[j].size) {
            Some(i)
        } else {
            r
        }
    }
}

proof fn lemma_smallest_video_range(fs: Seq<FormatView>, n: nat)
    ensures
        smallest_video(fs, n) matches Some(i) ==> 0 <= i < n && fs[i].size > 0,
    decreases n,
{
    if n > 0 {
        lemma_smallest_video_range(fs, (n - 1) as nat);
    }
}

/// The stream to probe whether YouTube serves a video whole, and the byte to ask for: the
/// last byte of the smallest video stream of known size (asking for the first byte always
/// succeeds, even when only the first minute is served).
pub fn probe_target(info: &VideoInfo) -> (r: Option<(usize, u64)>)
    ensures
        match smallest_video(views_of(info.formats@), info.formats@.len()) {
            Some(i) => r == Some((i as usize, (info.formats@[i].size - 1) as u64)),
            None => r is None,
        },
{
    let ghost fs = views_of(info.formats@);
    let mut best: Option<usize> = None;
    let mut i: usize = 0;
    while i < info.formats.len()
        invariant
            i <= info.formats.len(),
            fs == views_of(info.formats@),
            best == match smallest_video(fs, i as nat) { Some(j) => Some(j as usize), None => None::<usize> },
        decreases info.formats.len() - i,
    {
        proof {
            lemma_smallest_video_range(fs, i as nat);
        }
        let f = &info.formats[i];
        assert(fs[i as int] == f@);
        let better = match best {
            Some(j) => {
                assert(fs[j as int] == info.formats@[j as int]@);
                f.size < info.formats[j].size
            },
            None => true,
        };
        if f.kind == Kind::Video && f.size > 0 && better {
            best = Some(i);
        }
        i = i + 1;
    }
    proof {
        lemma_smallest_video_range(fs, i as nat);
    }
    match best {
        Some(j) => {
            assert(fs[j as int] == info.formats@[j as int]@);
            Some((j, info.formats[j].size - 1))
        },
        None => None,
    }
}

/// What the answer to the last-byte probe says: 200 or 206, the whole video is served; 403,
/// only its beginning; any other status is an error.
pub fn probe_answer(code: u16) -> (r: Result<bool, String>)
    ensures
        (code == 200 || code == 206) ==> r == Ok::<bool, String>(true),
        code == 403 ==> r == Ok::<bool, String>(false),
        !(code == 200 || code == 206 || code == 403) ==> (r matches Err(m)
            && m@ == "HTTP "@ + decimal(code as nat) + " al comprobar el stream"@),
{
    if code == 200 || code == 206 {
        Ok(true)
    } else if code == 403 {
        Ok(false)
    } else {
        let mut m = String::from_str("HTTP ");
        let d = decimal_string(code as u64);
        append_text(&mut m, d.as_str());
        append_text(&mut m, " al comprobar el stream");
        Err(m)
    }
}

// ---------- the anonymous browser session ----------

/// An anonymous browser session: what YouTube hands any visitor before it answers for a
/// video (cookies, visitor id, signature timestamp, web client version).
pub struct Session {
    pub cookies: String,
    pub visitor_data: String,
    pub sts: Option<u64>,
    pub web_version: Option<String>,
}

/// The cookies sent before any are received.
pub open spec fn base_cookies() -> Seq<char> {
    "PREF=hl=en&tz=UTC; SOCS=CAI"@
}

/// The cookie jar without `name`.
pub open spec fn without_cookie(jar: Seq<(Seq<char>, Seq<char>)>, name: Seq<char>) -> Seq<(Seq<char>, Seq<char>)>
    decreases jar.len(),
{
    if jar.len() == 0 {
        jar
    } else {
        let rest = without_cookie(jar.drop_last(), name);
        if jar.last().0 == name { rest } else { rest.push(jar.last()) }
    }
}

/// The jar after a `Set-Cookie` header: its `name=value` (before any `;`) replaces an earlier
/// cookie of that (trimmed) name and goes last; a header without `=` changes nothing.
pub open spec fn set_cookie(jar: Seq<(Seq<char>, Seq<char>)>, header: Seq<char>) -> Seq<(Seq<char>, Seq<char>)> {
    match split_once(before(header, ';'), '=') {
        Some((k, v)) => without_cookie(jar, trim(k)).push((trim(k), v)),
        None => jar,
    }
}

pub open spec fn cookie_jar(headers: Seq<Seq<char>>) -> Seq<(Seq<char>, Seq<char>)>
    decreases headers.len(),
{
    if headers.len() == 0 {
        Seq::empty()
    } else {
        set_cookie(cookie_jar(headers.drop_last()), headers.last())
    }
}

/// The base cookies followed by `; name=value` for each cookie of the jar.
pub open spec fn cookie_line(jar: Seq<(Seq<char>, Seq<char>)>) -> Seq<char>
    decreases jar.len(),
{
    if jar.len() == 0 {
        base_cookies()
    } else {
        cookie_line(jar.drop_last()) + "; "@ + jar.last().0 + "="@ + jar.last().1
    }
}

/// The leading decimal digits of a text.
pub open spec fn leading_digits(s: Seq<char>) -> Seq<char>
    decreases s.len(),
{
    if s.len() > 0 && '0' <= s[0] && s[0] <= '9' {
        seq![s[0]] + leading_digits(s.drop_first())
    } else {
        Seq::empty()
    }
}

/// A quoted value of a page: what follows `key` up to the next `"`.
pub open spec fn quoted_after(html: Seq<char>, key: Seq<char>) -> Option<Seq<char>> {
    match after_sub(html, key) {
        Some(r) => Some(before(r, '"')),
        None => None,
    }
}

fn jar_without(jar: &Vec<(String, String)>, name: &[char]) -> (r: Vec<(String, String)>)
    ensures
        pairs_view(r@) == without_cookie(pairs_view(jar@), name@),
{
    let mut out: Vec<(String, String)> = Vec::new();
    let mut i: usize = 0;
    while i < jar.len()
        invariant
            i <= jar.len(),
            pairs_view(out@) == without_cookie(pairs_view(jar@).take(i as int), name@),
        decreases jar.len() - i,
    {
        assert(pairs_view(jar@).take(i as int + 1).drop_last() =~= pairs_view(jar@).take(i as int));
        assert(pairs_view(jar@).take(i as int + 1).last() == (jar@[i as int].0@, jar@[i as int].1@));
        let n = chars_of(jar[i].0.as_str());
        if !same_chars(n.as_slice(), name) {
            let ghost before = pairs_view(out@);
            out.push((jar[i].0.clone(), jar[i].1.clone()));
            assert(pairs_view(out@) =~= before.push((jar@[i as int].0@, jar@[i as int].1@)));
        }
        i = i + 1;
    }
    assert(pairs_view(jar@).take(i as int) =~= pairs_view(jar@));
    out
}

pub open spec fn pairs_view(v: Seq<(String, String)>) -> Seq<(Seq<char>, Seq<char>)> {
    Seq::new(v.len(), |i: int| (v[i].0@, v[i].1@))
}

fn digits_prefix(s: &[char]) -> (r: Vec<char>)
    ensures
        r@ == leading_digits(s@),
{
    let mut n: usize = 0;
    while n < s.len() && '0' <= s[n] && s[n] <= '9'
        invariant
            n <= s.len(),
            forall|j: int| 0 <= j < n ==> '0' <= #[trigger] s@[j] && s@[j] <= '9',
        decreases s.len() - n,
    {
        n = n + 1;
    }
    let r = slice_vec(s, 0, n);
    proof {
        lemma_leading_digits(s@, n as int);
    }
    r
}

proof fn lemma_leading_digits(s: Seq<char>, n: int)
    requires
        0 <= n <= s.len(),
        forall|j: int| 0 <= j < n ==> '0' <= #[trigger] s[j] && s[j] <= '9',
        n == s.len() || !('0' <= s[n] && s[n] <= '9'),
    ensures
        leading_digits(s) == s.subrange(0, n),
    decreases n,
{
    if n == 0 {
        assert(s.subrange(0, 0) =~= Seq::<char>::empty());
    } else {
        let t = s.drop_first();
        assert forall|j: int| 0 <= j < n - 1 implies '0' <= #[trigger] t[j] && t[j] <= '9' by {
            assert(t[j] == s[j + 1]);
        }
        lemma_leading_digits(t, n - 1);
        assert(seq![s[0]] + t.subrange(0, n - 1) =~= s.subrange(0, n));
    }
}

/// The session a YouTube page opens: its cookies from the `Set-Cookie` headers received (in
/// order), and the visitor id, signature timestamp and web client version from its HTML.
pub fn session_of(set_cookies: &Vec<String>, html: &str) -> (s: Session)
    ensures
        s.cookies@ == cookie_line(cookie_jar(Seq::new(set_cookies@.len(), |i: int| set_cookies@[i]@))),
        s.visitor_data@ == str_or(quoted_after(html@, "\"VISITOR_DATA\":\""@), Seq::empty()),
        s.sts == match after_sub(html@, "\"STS\":"@) {
            Some(r) => parse_u64_spec(leading_digits(r)),
            None => None,
        },
        opt_text(s.web_version) == quoted_after(html@, "\"INNERTUBE_CLIENT_VERSION\":\""@),
{
    let ghost hs = Seq::new(set_cookies@.len(), |i: int| set_cookies@[i]@);
    let mut jar: Vec<(String, String)> = Vec::new();
    let mut i: usize = 0;
    while i < set_cookies.len()
        invariant
            i <= set_cookies.len(),
            hs == Seq::new(set_cookies@.len(), |i: int| set_cookies@[i]@),
            pairs_view(jar@) == cookie_jar(hs.take(i as int)),
        decreases set_cookies.len() - i,
    {
        assert(hs.take(i as int + 1).drop_last() =~= hs.take(i as int));
        assert(hs.take(i as int + 1).last() == set_cookies@[i as int]@);
        let head = before_char(chars_of(set_cookies[i].as_str()).as_slice(), ';');
        match split_once_char(head.as_slice(), '=') {
            Some((k, v)) => {
                let name = trim_chars(k.as_slice());
                let mut kept = jar_without(&jar, name.as_slice());
                let ghost before = pairs_view(kept@);
                kept.push((string_of(name.as_slice()), string_of(v.as_slice())));
                assert(pairs_view(kept@) =~= before.push((name@, v@)));
                jar = kept;
            },
            None => {},
        }
        i = i + 1;
    }
    assert(hs.take(i as int) =~= hs);
    let ghost jv = pairs_view(jar@);
    let mut cookies = String::from_str("PREF=hl=en&tz=UTC; SOCS=CAI");
    let mut k: usize = 0;
    while k < jar.len()
        invariant
            k <= jar.len(),
            jv == pairs_view(jar@),
            cookies@ == cookie_line(jv.take(k as int)),
        decreases jar.len() - k,
    {
        assert(jv.take(k as int + 1).drop_last() =~= jv.take(k as int));
        assert(jv.take(k as int + 1).last() == jv[k as int]);
        append_text(&mut cookies, "; ");
        append_text(&mut cookies, jar[k].0.as_str());
        append_text(&mut cookies, "=");
        append_text(&mut cookies, jar[k].1.as_str());
        k = k + 1;
    }
    assert(jv.take(k as int) =~= jv);
    let h = chars_of(html);
    let visitor_data = match after_str(h.as_slice(), chars_of("\"VISITOR_DATA\":\"").as_slice()) {
        Some(r) => string_of(before_char(r.as_slice(), '"').as_slice()),
        None => String::new(),
    };
    let sts = match after_str(h.as_slice(), chars_of("\"STS\":").as_slice()) {
        Some(r) => parse_u64(digits_prefix(r.as_slice()).as_slice()),
        None => None,
    };
    let web_version = match after_str(h.as_slice(), chars_of("\"INNERTUBE_CLIENT_VERSION\":\"").as_slice()) {
        Some(r) => Some(string_of(before_char(r.as_slice(), '"').as_slice())),
        None => None,
    };
    Session { cookies, visitor_data, sts, web_version }
}

pub open spec fn opt_text(o: Option<String>) -> Option<Seq<char>> {
    match o {
        Some(s) => Some(s@),
        None => None,
    }
}

/// A search result as plain values: id, title, channel and length.
pub open spec fn result_view(r: SearchResult) -> (Seq<char>, Seq<char>, Seq<char>, u64) {
    (r.id@, r.title@, r.channel@, r.seconds)
}

pub open spec fn results_view(v: Seq<SearchResult>) -> Seq<(Seq<char>, Seq<char>, Seq<char>, u64)> {
    Seq::new(v.len(), |i: int| result_view(v[i]))
}

// ---------- search results ----------

/// The text of a `{runs: [{text}, ...]}` value: its runs' texts joined (the runs without a
/// text skipped); nothing when `runs` is not a list.
pub open spec fn runs_text(x: Option<Json>) -> Option<Seq<char>> {
    match arr_of(field(x, "runs"@)) {
        Some(a) => Some(joined_runs(a)),
        None => None,
    }
}

pub open spec fn joined_runs(a: Seq<Json>) -> Seq<char>
    decreases a.len(),
{
    if a.len() == 0 {
        Seq::empty()
    } else {
        joined_runs(a.drop_last()) + str_or(str_of(field(Some(a.last()), "text"@)), Seq::empty())
    }
}

/// The result a `videoRenderer` describes, when it has an id, a title and a readable length.
pub open spec fn renderer_result(r: Json) -> Option<(Seq<char>, Seq<char>, Seq<char>, u64)> {
    let clock = match str_of(field(field(Some(r), "lengthText"@), "simpleText"@)) {
        Some(t) => clock_spec(t),
        None => None,
    };
    match (str_of(field(Some(r), "videoId"@)), runs_text(field(Some(r), "title"@)), clock) {
        (Some(id), Some(title), Some(seconds)) => Some(
            (id, title, str_or(runs_text(field(Some(r), "ownerText"@)), Seq::empty()), seconds),
        ),
        _ => None,
    }
}

/// The videos of a search answer, in document order: an object with a `videoRenderer` is one
/// result (or none, when it lacks something) and is not searched further; other objects and
/// arrays are searched member by member.
pub open spec fn videos_in(v: Json) -> Seq<(Seq<char>, Seq<char>, Seq<char>, u64)>
    decreases v, 0int,
{
    match v {
        Json::Obj(ps) => match member(ps@, "videoRenderer"@) {
            Some(r) => match renderer_result(r) {
                Some(x) => seq![x],
                None => Seq::empty(),
            },
            None => videos_in_members(ps@, ps@.len() as int),
        },
        Json::Arr(a) => videos_in_items(a@, a@.len() as int),
        _ => Seq::empty(),
    }
}

pub open spec fn videos_in_items(a: Seq<Json>, n: int) -> Seq<(Seq<char>, Seq<char>, Seq<char>, u64)>
    decreases a, n,
{
    if n <= 0 || n > a.len() {
        Seq::empty()
    } else {
        videos_in_items(a, n - 1) + videos_in(a[n - 1])
    }
}

pub open spec fn videos_in_members(ps: Seq<(String, Json)>, n: int) -> Seq<(Seq<char>, Seq<char>, Seq<char>, u64)>
    decreases ps, n,
{
    if n <= 0 || n > ps.len() {
        Seq::empty()
    } else {
        videos_in_members(ps, n - 1) + videos_in(ps[n - 1].1)
    }
}

fn runs_of(x: Option<&Json>) -> (r: Option<String>)
    ensures
        opt_text(r) == runs_text(val(x)),
{
    let a = match as_array(get(x, "runs")) {
        Some(a) => a,
        None => {
            return None;
        }
    };
    let mut s = String::new();
    let mut i: usize = 0;
    while i < a.len()
        invariant
            i <= a.len(),
            s@ == joined_runs(a@.take(i as int)),
        decreases a.len() - i,
    {
        assert(a@.take(i as int + 1).drop_last() =~= a@.take(i as int));
        assert(a@.take(i as int + 1).last() == a@[i as int]);
        match as_str(get(Some(&a[i]), "text")) {
            Some(t) => append_text(&mut s, t),
            None => {
                assert(s@ + Seq::<char>::empty() =~= s@);
            },
        }
        i = i + 1;
    }
    assert(a@.take(i as int) =~= a@);
    Some(s)
}

fn renderer(r: &Json) -> (res: Option<SearchResult>)
    ensures
        match renderer_result(*r) {
            Some(x) => res matches Some(s) && result_view(s) == x,
            None => res is None,
        },
{
    let ro = Some(r);
    let clock = match as_str(get(get(ro, "lengthText"), "simpleText")) {
        Some(t) => parse_clock(t),
        None => None,
    };
    let id = as_str(get(ro, "videoId"));
    let title = runs_of(get(ro, "title"));
    match (id, title, clock) {
        (Some(id), Some(title), Some(seconds)) => {
            let channel = match runs_of(get(ro, "ownerText")) {
                Some(c) => c,
                None => String::new(),
            };
            Some(SearchResult { id: String::from_str(id), title, channel, seconds })
        },
        _ => None,
    }
}

/// Adds the videos of a search answer to `out`, in document order (see `videos_in`).
pub fn collect_videos(v: &Json, out: &mut Vec<SearchResult>)
    ensures
        results_view(final(out)@) == results_view(old(out)@) + videos_in(*v),
    decreases v,
{
    let ghost start = results_view(out@);
    match v {
        Json::Obj(ps) => {
            match get(Some(v), "videoRenderer") {
                Some(r) => {
                    match renderer(r) {
                        Some(x) => {
                            out.push(x);
                            assert(results_view(out@) =~= start + seq![result_view(x)]);
                        },
                        None => {
                            assert(results_view(out@) =~= start + Seq::empty());
                        },
                    }
                },
                None => {
                    let mut i: usize = 0;
                    assert(results_view(out@) =~= start + videos_in_members(ps@, 0));
                    while i < ps.len()
                        invariant
                            i <= ps.len(),
                            *v == Json::Obj(*ps),
                            results_view(out@) == start + videos_in_members(ps@, i as int),
                        decreases ps.len() - i,
                    {
                        assert(decreases_to!(*v => (*v)->Obj_0));
                        assert(decreases_to!(*ps => ps@));
                        assert(decreases_to!(ps@ => ps@[i as int]));
                        assert(decreases_to!(ps@[i as int] => ps@[i as int].1));
                        assert(decreases_to!(*v => ps@[i as int].1));
                        collect_videos(&ps[i].1, out);
                        assert(results_view(out@) =~= start + videos_in_members(ps@, i + 1));
                        i = i + 1;
                    }
                },
            }
        },
        Json::Arr(a) => {
            let mut i: usize = 0;
            assert(results_view(out@) =~= start + videos_in_items(a@, 0));
            while i < a.len()
                invariant
                    i <= a.len(),
                    *v == Json::Arr(*a),
                    results_view(out@) == start + videos_in_items(a@, i as int),
                decreases a.len() - i,
            {
                assert(decreases_to!(*v => (*v)->Arr_0));
                assert(decreases_to!(*a => a@));
                assert(decreases_to!(a@ => a@[i as int]));
                assert(decreases_to!(*v => a@[i as int]));
                collect_videos(&a[i], out);
                assert(results_view(out@) =~= start + videos_in_items(a@, i + 1));
                i = i + 1;
            }
        },
        _ => {
            assert(results_view(out@) =~= start + Seq::empty());
        },
    }
}

// ---------- trying the clients ----------

/// Rounds of trying every client, each with a new session.
pub const INFO_ROUNDS: u32 = 3;

pub open spec fn truncated_text() -> Seq<char> {
    "YouTube solo entrega los primeros ~60 segundos de este vídeo a las apps sin sesión iniciada (exige un token de origen que esta herramienta no genera), así que no se puede descargar completo"@
}

/// What trying one client gave.
pub enum ClientOutcome {
    /// It served the whole video.
    Full,
    /// It answered, but the video is cut short.
    Truncated,
    /// It failed with this message.
    Failed(String),
}

/// What the round does after one client.
pub enum ClientStep {
    /// Stop: this client's answer is the one.
    Done,
    /// Go on to the next client, with what the round has seen so far.
    Next { truncated: bool, last_error: String },
}

/// After one client of a round: a whole video ends the round; a cut one is remembered; a
/// failure becomes the last error.
pub fn after_client(outcome: ClientOutcome, truncated: bool, last_error: String) -> (s: ClientStep)
    ensures
        match outcome {
            ClientOutcome::Full => s is Done,
            ClientOutcome::Truncated => s matches ClientStep::Next { truncated: t, last_error: m }
                && t && m@ == last_error@,
            ClientOutcome::Failed(e) => s matches ClientStep::Next { truncated: t, last_error: m }
                && t == truncated && m@ == e@,
        },
{
    match outcome {
        ClientOutcome::Full => ClientStep::Done,
        ClientOutcome::Truncated => ClientStep::Next { truncated: true, last_error },
        ClientOutcome::Failed(e) => ClientStep::Next { truncated, last_error: e },
    }
}

/// What follows a round in which no client served the whole video.
pub enum RoundEnd {
    /// Wait this many milliseconds and try every client again with a new session.
    Retry(u64),
    /// Give up with this message.
    GiveUp(String),
}

/// After round `round` (from 1) in which no client served the video whole: if none of them
/// served it cut short, retrying does not mend the failure (unavailable, private...) and the
/// last error stands; if some did (YouTube cuts videos off intermittently), wait 1.5 s per
/// round and retry, and after the last round say the video is only served cut short.
pub fn round_end(round: u32, truncated: bool, last_error: String) -> (r: RoundEnd)
    requires
        1 <= round <= INFO_ROUNDS,
    ensures
        !truncated ==> (r matches RoundEnd::GiveUp(m) && m@ == last_error@),
        truncated && round < INFO_ROUNDS ==> (r matches RoundEnd::Retry(ms) && ms == 1500 * round),
        truncated && round == INFO_ROUNDS ==> (r matches RoundEnd::GiveUp(m) && m@ == truncated_text()),
{
    if !truncated {
        RoundEnd::GiveUp(last_error)
    } else if round < INFO_ROUNDS {
        RoundEnd::Retry(1500 * round as u64)
    } else {
        RoundEnd::GiveUp(String::from_str("YouTube solo entrega los primeros ~60 segundos de este vídeo a las apps sin sesión iniciada (exige un token de origen que esta herramienta no genera), así que no se puede descargar completo"))
    }
}

// ---------- the clients tried, and what is sent to them ----------

/// How many clients are tried, in order.
pub const CLIENT_COUNT: usize = 4;

/// The name of client `i`.
pub open spec fn client_name(i: int) -> Seq<char> {
    if i == 0 {
        "VISIONOS"@
    } else if i == 1 {
        "ANDROID_VR"@
    } else if i == 2 {
        "ANDROID"@
    } else if i == 3 {
        "IOS"@
    } else {
        Seq::empty()
    }
}

/// The numeric id of client `i` (`X-YouTube-Client-Name`).
pub open spec fn client_id(i: int) -> u32 {
    if i == 0 {
        101
    } else if i == 1 {
        28
    } else if i == 2 {
        3
    } else if i == 3 {
        5
    } else {
        0
    }
}

/// The user agent of client `i`.
pub open spec fn client_ua(i: int) -> Seq<char> {
    if i == 0 {
        "Mozilla/5.0 (Macintosh; Intel Mac OS X 15_7_3) AppleWebKit/605.1.15 (KHTML, like Gecko) Version/26.0 Safari/605.1.15"@
    } else if i == 1 {
        "com.google.android.apps.youtube.vr.oculus/1.60.19 (Linux; U; Android 12L; eureka-user Build/SQ3A.220605.009.A1) gzip"@
    } else if i == 2 {
        "com.google.android.youtube/20.10.38 (Linux; U; Android 11) gzip"@
    } else if i == 3 {
        "com.google.ios.youtube/20.10.4 (iPhone16,2; U; CPU iOS 18_3_2 like Mac OS X;)"@
    } else {
        Seq::empty()
    }
}

/// The text members of the context of client `i`, in order.
pub open spec fn client_texts(i: int) -> Seq<(Seq<char>, Seq<char>)> {
    if i == 0 {
        seq![("clientName"@, "VISIONOS"@), ("clientVersion"@, "1.02"@), ("deviceMake"@, "Apple"@), ("deviceModel"@, "RealityDevice17,1"@), ("userAgent"@, "Mozilla/5.0 (Macintosh; Intel Mac OS X 15_7_3) AppleWebKit/605.1.15 (KHTML, like Gecko) Version/26.0 Safari/605.1.15"@), ("osName"@, "visionOS"@), ("osVersion"@, "26.5.23O471"@)]
    } else if i == 1 {
        seq![("clientName"@, "ANDROID_VR"@), ("clientVersion"@, "1.60.19"@), ("deviceMake"@, "Oculus"@), ("deviceModel"@, "Quest 3"@), ("osName"@, "Android"@), ("osVersion"@, "12L"@)]
    } else if i == 2 {
        seq![("clientName"@, "ANDROID"@), ("clientVersion"@, "20.10.38"@), ("osName"@, "Android"@), ("osVersion"@, "11"@)]
    } else if i == 3 {
        seq![("clientName"@, "IOS"@), ("clientVersion"@, "20.10.4"@), ("deviceMake"@, "Apple"@), ("deviceModel"@, "iPhone16,2"@), ("osName"@, "iPhone"@), ("osVersion"@, "18.3.2.22D82"@)]
    } else {
        Seq::empty()
    }
}

/// The numeric members of the context of client `i`, after the text ones.
pub open spec fn client_numbers(i: int) -> Seq<(Seq<char>, u64)> {
    if i == 0 {
        Seq::empty()
    } else if i == 1 {
        seq![("androidSdkVersion"@, 32u64)]
    } else if i == 2 {
        seq![("androidSdkVersion"@, 30u64)]
    } else if i == 3 {
        Seq::empty()
    } else {
        Seq::empty()
    }
}

/// The members `ps` are the text members `t` followed by the numeric members `n`.
pub open spec fn members_are(ps: Seq<(String, Json)>, t: Seq<(Seq<char>, Seq<char>)>, n: Seq<(Seq<char>, u64)>) -> bool {
    &&& ps.len() == t.len() + n.len()
    &&& forall|j: int| 0 <= j < t.len() ==> (#[trigger] ps[j]).0@ == t[j].0 && str_of(Some(ps[j].1)) == Some(t[j].1)
    &&& forall|j: int| 0 <= j < n.len() ==> (#[trigger] ps[t.len() + j]).0@ == n[j].0
        && ps[t.len() + j].1 == Json::Num(Some(n[j].1))
}

/// A client of YouTube's internal API: that of the Apple Vision Pro, which gets direct
/// stream addresses, first, and three more to fall back on.
pub struct Client {
    pub name: String,
    pub id: u32,
    pub ua: String,
}

fn client_row(i: usize) -> (r: (&'static str, u32, &'static str))
    requires
        i < CLIENT_COUNT,
    ensures
        r.0@ == client_name(i as int),
        r.1 == client_id(i as int),
        r.2@ == client_ua(i as int),
{
    if i == 0 {
        ("VISIONOS", 101, "Mozilla/5.0 (Macintosh; Intel Mac OS X 15_7_3) AppleWebKit/605.1.15 (KHTML, like Gecko) Version/26.0 Safari/605.1.15")
    } else if i == 1 {
        ("ANDROID_VR", 28, "com.google.android.apps.youtube.vr.oculus/1.60.19 (Linux; U; Android 12L; eureka-user Build/SQ3A.220605.009.A1) gzip")
    } else if i == 2 {
        ("ANDROID", 3, "com.google.android.youtube/20.10.38 (Linux; U; Android 11) gzip")
    } else if i == 3 {
        ("IOS", 5, "com.google.ios.youtube/20.10.4 (iPhone16,2; U; CPU iOS 18_3_2 like Mac OS X;)")
    } else {
        ("", 0, "")
    }
}

/// The clients, in the order they are tried.
pub fn clients() -> (r: Vec<Client>)
    ensures
        r@.len() == CLIENT_COUNT,
        forall|i: int| 0 <= i < CLIENT_COUNT ==> #[trigger] r@[i].name@ == client_name(i) && r@[i].id == client_id(i)
            && r@[i].ua@ == client_ua(i),
{
    let mut r: Vec<Client> = Vec::new();
    let mut i: usize = 0;
    while i < CLIENT_COUNT
        invariant
            i <= CLIENT_COUNT,
            r@.len() == i,
            forall|k: int| 0 <= k < i ==> #[trigger] r@[k].name@ == client_name(k) && r@[k].id == client_id(k)
                && r@[k].ua@ == client_ua(k),
        decreases CLIENT_COUNT - i,
    {
        let (name, id, ua) = client_row(i);
        let c = Client { name: String::from_str(name), id, ua: String::from_str(ua) };
        let ghost prev = r@;
        r.push(c);
        assert(r@ == prev.push(c));
        assert(c.name@ == client_name(i as int) && c.ua@ == client_ua(i as int));
        assert(r@[i as int] == c);
        assert forall|k: int| 0 <= k < i + 1 implies #[trigger] r@[k].name@ == client_name(k)
            && r@[k].id == client_id(k) && r@[k].ua@ == client_ua(k) by {
            if k < i {
                assert(r@[k] == prev[k]);
            }
        }
        i = i + 1;
    }
    r
}

/// The context of client `i`: its name, version, device and system.
pub fn client_context(i: usize) -> (c: Vec<(String, Json)>)
    requires
        i < CLIENT_COUNT,
    ensures
        members_are(c@, client_texts(i as int), client_numbers(i as int)),
{
    let mut m: Vec<(String, Json)> = Vec::new();
    if i == 0 {
        m.push(member_of("clientName", text("VISIONOS")));
        m.push(member_of("clientVersion", text("1.02")));
        m.push(member_of("deviceMake", text("Apple")));
        m.push(member_of("deviceModel", text("RealityDevice17,1")));
        m.push(member_of("userAgent", text("Mozilla/5.0 (Macintosh; Intel Mac OS X 15_7_3) AppleWebKit/605.1.15 (KHTML, like Gecko) Version/26.0 Safari/605.1.15")));
        m.push(member_of("osName", text("visionOS")));
        m.push(member_of("osVersion", text("26.5.23O471")));
    } else if i == 1 {
        m.push(member_of("clientName", text("ANDROID_VR")));
        m.push(member_of("clientVersion", text("1.60.19")));
        m.push(member_of("deviceMake", text("Oculus")));
        m.push(member_of("deviceModel", text("Quest 3")));
        m.push(member_of("osName", text("Android")));
        m.push(member_of("osVersion", text("12L")));
        m.push(member_of("androidSdkVersion", Json::Num(Some(32))));
    } else if i == 2 {
        m.push(member_of("clientName", text("ANDROID")));
        m.push(member_of("clientVersion", text("20.10.38")));
        m.push(member_of("osName", text("Android")));
        m.push(member_of("osVersion", text("11")));
        m.push(member_of("androidSdkVersion", Json::Num(Some(30))));
    } else if i == 3 {
        m.push(member_of("clientName", text("IOS")));
        m.push(member_of("clientVersion", text("20.10.4")));
        m.push(member_of("deviceMake", text("Apple")));
        m.push(member_of("deviceModel", text("iPhone16,2")));
        m.push(member_of("osName", text("iPhone")));
        m.push(member_of("osVersion", text("18.3.2.22D82")));
    }
    m
}

/// What is asked of the player for video `video_id` with client `i`: the client's context in
/// English and UTC, the signature timestamp of the session when it has one, and consent to
/// content checks.
pub open spec fn player_body_holds(b: Json, i: int, sts: Option<u64>, video_id: Seq<char>) -> bool {
    let ctx = field(field(Some(b), "context"@), "client"@);
    let pb = field(field(Some(b), "playbackContext"@), "contentPlaybackContext"@);
    &&& b matches Json::Obj(top) && top@.len() == 5
    &&& field(Some(b), "context"@) matches Some(Json::Obj(c)) && c@.len() == 1
    &&& ctx matches Some(Json::Obj(cm)) && {
        let t = client_texts(i);
        let n = client_numbers(i);
        let k = (t.len() + n.len()) as int;
        &&& cm@.len() == k + 3
        &&& members_are(cm@.take(k), t, n)
        &&& cm@[k].0@ == "hl"@ && str_of(Some(cm@[k].1)) == Some("en"@)
        &&& cm@[k + 1].0@ == "timeZone"@ && str_of(Some(cm@[k + 1].1)) == Some("UTC"@)
        &&& cm@[k + 2].0@ == "utcOffsetMinutes"@ && cm@[k + 2].1 == Json::Num(Some(0))
    }
    &&& str_of(field(Some(b), "videoId"@)) == Some(video_id)
    &&& field(Some(b), "playbackContext"@) matches Some(Json::Obj(p)) && p@.len() == 1
    &&& pb matches Some(Json::Obj(pm)) && pm@.len() == (if sts is Some { 2int } else { 1int })
    &&& str_of(field(pb, "html5Preference"@)) == Some("HTML5_PREF_WANTS"@)
    &&& u64_of(field(pb, "signatureTimestamp"@)) == sts
    &&& bool_of(field(Some(b), "contentCheckOk"@)) == Some(true)
    &&& bool_of(field(Some(b), "racyCheckOk"@)) == Some(true)
}

/// The request body for the player (see `player_body_holds`).
pub fn player_body(i: usize, sts: Option<u64>, video_id: &str) -> (b: Json)
    requires
        i < CLIENT_COUNT,
    ensures
        player_body_holds(b, i as int, sts, video_id@),
{
    let mut ctx = client_context(i);
    let ghost base = ctx@;
    ctx.push(member_of("hl", text("en")));
    ctx.push(member_of("timeZone", text("UTC")));
    ctx.push(member_of("utcOffsetMinutes", Json::Num(Some(0))));
    proof {
        assert(ctx@.take(base.len() as int) =~= base);
    }
    let mut playback: Vec<(String, Json)> = Vec::new();
    playback.push(member_of("html5Preference", text("HTML5_PREF_WANTS")));
    match sts {
        Some(v) => playback.push(member_of("signatureTimestamp", Json::Num(Some(v)))),
        None => {},
    }
    let mut cwrap: Vec<(String, Json)> = Vec::new();
    cwrap.push(member_of("client", Json::Obj(ctx)));
    let mut pwrap: Vec<(String, Json)> = Vec::new();
    pwrap.push(member_of("contentPlaybackContext", Json::Obj(playback)));
    let mut top: Vec<(String, Json)> = Vec::new();
    top.push(member_of("context", Json::Obj(cwrap)));
    top.push(member_of("videoId", text(video_id)));
    top.push(member_of("playbackContext", Json::Obj(pwrap)));
    top.push(member_of("contentCheckOk", Json::Bool(true)));
    top.push(member_of("racyCheckOk", Json::Bool(true)));
    proof {
        reveal_strlit("context");
        reveal_strlit("videoId");
        reveal_strlit("playbackContext");
        reveal_strlit("contentCheckOk");
        reveal_strlit("racyCheckOk");
        reveal_strlit("html5Preference");
        reveal_strlit("signatureTimestamp");
        let ts = top@;
        assert(ts[0].0@[0] == 'c' && ts[1].0@[0] == 'v' && ts[2].0@[0] == 'p');
        assert(ts[3].0@[0] == 'c' && ts[3].0@[1] == 'o' && ts[3].0@[2] == 'n' && ts[3].0@[3] == 't'
            && ts[3].0@[4] == 'e' && ts[3].0@[5] == 'n' && ts[3].0@[6] == 't' && ts[3].0@[7] == 'C');
        assert(ts[4].0@[0] == 'r');
        assert(ts[0].0@.len() == 7);
        lemma_member_at(ts, "videoId"@, 1);
        lemma_member_at(ts, "playbackContext"@, 2);
        lemma_member_at(ts, "contentCheckOk"@, 3);
        lemma_member_at(ts, "racyCheckOk"@, 4);
        let ps = playback@;
        match sts {
            Some(v) => {
                assert(ps[0].0@[0] == 'h' && ps[1].0@[0] == 's');
                lemma_member_at(ps, "signatureTimestamp"@, 1);
            },
            None => {
                assert(ps[0].0@[0] == 'h');
                lemma_member_absent(ps, "signatureTimestamp"@);
            },
        }
    }
    Json::Obj(top)
}


// ---------- what is sent to the search ----------

/// The version of the web client that searches: the page's, or a recent one when the page
/// gave none.
pub open spec fn search_version(session: Session) -> Seq<char> {
    match session.web_version {
        Some(v) => v@,
        None => "2.20260918.00.00"@,
    }
}

/// The version of the web client that searches (see `search_version`).
pub fn web_version(session: &Session) -> (v: String)
    ensures
        v@ == search_version(*session),
{
    match &session.web_version {
        Some(v) => v.clone(),
        None => String::from_str("2.20260918.00.00"),
    }
}

/// What is asked of the search for `query` in `session`: the web client, in English and the
/// United States, with the session's visitor id, and videos only.
pub open spec fn search_body_holds(b: Json, session: Session, query: Seq<char>) -> bool {
    let client = field(field(Some(b), "context"@), "client"@);
    &&& b matches Json::Obj(top) && top@.len() == 3
    &&& field(Some(b), "context"@) matches Some(Json::Obj(c)) && c@.len() == 1
    &&& client matches Some(Json::Obj(cm)) && members_are(cm@, seq![
        ("clientName"@, "WEB"@),
        ("clientVersion"@, search_version(session)),
        ("hl"@, "en"@),
        ("gl"@, "US"@),
        ("userAgent"@, client_ua(0)),
        ("visitorData"@, session.visitor_data@),
    ], Seq::empty())
    &&& str_of(field(Some(b), "query"@)) == Some(query)
    &&& str_of(field(Some(b), "params"@)) == Some("EgIQAQ%3D%3D"@)
}

/// The request body for the search (see `search_body_holds`).
pub fn search_body(session: &Session, query: &str) -> (b: Json)
    ensures
        search_body_holds(b, *session, query@),
{
    let mut cm: Vec<(String, Json)> = Vec::new();
    cm.push(member_of("clientName", text("WEB")));
    let version = web_version(session);
    cm.push(member_of("clientVersion", Json::Str(version)));
    cm.push(member_of("hl", text("en")));
    cm.push(member_of("gl", text("US")));
    let (_, _, ua) = client_row(0);
    cm.push(member_of("userAgent", text(ua)));
    cm.push(member_of("visitorData", text(session.visitor_data.as_str())));
    let mut cwrap: Vec<(String, Json)> = Vec::new();
    cwrap.push(member_of("client", Json::Obj(cm)));
    let mut top: Vec<(String, Json)> = Vec::new();
    top.push(member_of("context", Json::Obj(cwrap)));
    top.push(member_of("query", text(query)));
    top.push(member_of("params", text("EgIQAQ%3D%3D")));
    proof {
        reveal_strlit("context");
        reveal_strlit("query");
        reveal_strlit("params");
        let ts = top@;
        assert(ts[0].0@[0] == 'c' && ts[1].0@[0] == 'q' && ts[2].0@[0] == 'p');
        lemma_member_at(ts, "query"@, 1);
        lemma_member_at(ts, "params"@, 2);
    }
    Json::Obj(top)
}

} // verus!
