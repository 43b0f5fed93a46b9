//! What the C interface decides: the meaning of its format and status codes, the progress
//! it reports over a whole download, the heights it offers for a video, and the token a
//! caller sets to stop a download. The `extern "C"` functions themselves live with the
//! program.

use vstd::prelude::*;
use crate::pipeline::{Output, Stage};
use crate::sources::youtube::{Format, FormatView, VideoInfo, codec_is, views_of};
use crate::text::{decimal, decimal_string};

verus! {

pub const RS_OK: i32 = 0;
pub const RS_ERROR: i32 = 1;
pub const RS_CANCELLED: i32 = 2;

pub const RS_FORMAT_MP4: i32 = 0;
pub const RS_FORMAT_M4A: i32 = 1;
pub const RS_FORMAT_AAC: i32 = 2;
pub const RS_FORMAT_WAV: i32 = 3;
pub const RS_FORMAT_FLAC: i32 = 4;
pub const RS_FORMAT_MP3: i32 = 5;

/// A format code that the interface does not know.
#[derive(Debug, Clone, Copy, PartialEq, Eq, Structural)]
pub struct UnknownFormat(pub i32);

/// An integer written in decimal, with a minus sign when negative.
pub open spec fn signed_decimal(n: int) -> Seq<char> {
    if n < 0 {
        seq!['-'] + decimal((-n) as nat)
    } else {
        decimal(n as nat)
    }
}

impl UnknownFormat {
    /// Text shown for the error.
    pub fn message(&self) -> (s: String)
        ensures
            s@ == "Formato desconocido: "@ + signed_decimal(self.0 as int),
    {
        let mut s = String::from_str("Formato desconocido: ");
        let n: i64 = self.0 as i64;
        proof {
            reveal_strlit("-");
        }
        if n < 0 {
            s.append("-");
            let d = decimal_string((-n) as u64);
            s.append(d.as_str());
        } else {
            let d = decimal_string(n as u64);
            s.append(d.as_str());
        }
        s
    }
}

/// The container and whether only the audio is wanted, for each format code.
pub open spec fn output_spec(format: i32, kbps: u32) -> Option<(Output, bool)> {
    if format == RS_FORMAT_MP4 {
        Some((Output::Mp4, false))
    } else if format == RS_FORMAT_M4A {
        Some((Output::Mp4, true))
    } else if format == RS_FORMAT_AAC {
        Some((Output::Adts, true))
    } else if format == RS_FORMAT_WAV {
        Some((Output::Wav, true))
    } else if format == RS_FORMAT_FLAC {
        Some((Output::Flac, true))
    } else if format == RS_FORMAT_MP3 {
        Some((Output::Mp3(kbps), true))
    } else {
        None
    }
}

/// Format code of the interface -> output container and whether it is audio only.
pub fn output_of(format: i32, kbps: u32) -> (r: Result<(Output, bool), UnknownFormat>)
    ensures
        match output_spec(format, kbps) {
            Some(p) => r == Ok::<(Output, bool), UnknownFormat>(p),
            None => r == Err::<(Output, bool), UnknownFormat>(UnknownFormat(format)),
        },
{
    if format == RS_FORMAT_MP4 {
        Ok((Output::Mp4, false))
    } else if format == RS_FORMAT_M4A {
        Ok((Output::Mp4, true))
    } else if format == RS_FORMAT_AAC {
        Ok((Output::Adts, true))
    } else if format == RS_FORMAT_WAV {
        Ok((Output::Wav, true))
    } else if format == RS_FORMAT_FLAC {
        Ok((Output::Flac, true))
    } else if format == RS_FORMAT_MP3 {
        Ok((Output::Mp3(kbps), true))
    } else {
        Err(UnknownFormat(format))
    }
}

/// The output of a Spotify download: Spotify is music only, so a video MP4 becomes an M4A.
pub fn spotify_output(format: i32, kbps: u32) -> (r: Result<Output, UnknownFormat>)
    ensures
        ({
            let f = if format == RS_FORMAT_MP4 { RS_FORMAT_M4A } else { format };
            match output_spec(f, kbps) {
                Some(p) => r == Ok::<Output, UnknownFormat>(p.0),
                None => r == Err::<Output, UnknownFormat>(UnknownFormat(f)),
            }
        }),
{
    let f = if format == RS_FORMAT_MP4 { RS_FORMAT_M4A } else { format };
    match output_of(f, kbps) {
        Ok(p) => Ok(p.0),
        Err(e) => Err(e),
    }
}

/// The number the interface gives each stage: 0 video, 1 audio, 2 joining.
pub open spec fn stage_number(stage: Stage) -> i32 {
    match stage {
        Stage::Video => 0,
        Stage::Audio => 1,
        Stage::Muxing => 2,
    }
}

pub fn stage_code(stage: Stage) -> (r: i32)
    ensures
        r == stage_number(stage),
{
    match stage {
        Stage::Video => 0,
        Stage::Audio => 1,
        Stage::Muxing => 2,
    }
}

/// The number the interface gives a Spotify link kind: 0 song, 1 album, 2 playlist.
pub fn spotify_kind_code(kind: crate::sources::spotify::Kind) -> (r: i32)
    ensures
        r == match kind {
            crate::sources::spotify::Kind::Track => 0i32,
            crate::sources::spotify::Kind::Album => 1i32,
            crate::sources::spotify::Kind::Playlist => 2i32,
        },
{
    match kind {
        crate::sources::spotify::Kind::Track => 0,
        crate::sources::spotify::Kind::Album => 1,
        crate::sources::spotify::Kind::Playlist => 2,
    }
}

/// Progress over the whole download: with the planned sizes `(video, audio)` known, the
/// audio stage counts after the video and joining counts as done; without them, the
/// stage's own figures.
pub open spec fn progress_spec(planned: Option<(u64, u64)>, stage: Stage, done: u64, total: u64) -> (int, int) {
    match planned {
        Some((v, a)) => match stage {
            Stage::Video => (done as int, v + a),
            Stage::Audio => (v + done, v + a),
            Stage::Muxing => (v + a, v + a),
        },
        None => (done as int, total as int),
    }
}

pub fn overall_progress(planned: Option<(u64, u64)>, stage: Stage, done: u64, total: u64) -> (r: (u64, u64))
    requires
        planned matches Some((v, a)) ==> (v + a <= u64::MAX && v + done <= u64::MAX),
    ensures
        (r.0 as int, r.1 as int) == progress_spec(planned, stage, done, total),
{
    match planned {
        Some((v, a)) => match stage {
            Stage::Video => (done, v + a),
            Stage::Audio => (v + done, v + a),
            Stage::Muxing => (v + a, v + a),
        },
        None => (done, total),
    }
}

/// A video stream the muxer takes (H.264 or AV1), whatever its height.
pub open spec fn muxable(f: FormatView) -> bool {
    f.kind == crate::sources::youtube::Kind::Video && (f.codec == "avc1"@ || f.codec == "av01"@)
}

pub open spec fn strictly_decreasing(s: Seq<u32>) -> bool {
    forall|i: int, j: int| 0 <= i < j < s.len() ==> s[i] > s[j]
}

/// The heights of the muxable streams among `fs`.
pub open spec fn offered(fs: Seq<FormatView>, h: u32) -> bool {
    exists|i: int| 0 <= i < fs.len() && muxable(fs[i]) && #[trigger] fs[i].height == h
}

fn insert_descending(v: &mut Vec<u32>, h: u32)
    requires
        strictly_decreasing(old(v)@),
    ensures
        strictly_decreasing(final(v)@),
        forall|x: u32| #[trigger] final(v)@.contains(x) <==> (old(v)@.contains(x) || x == h),
{
    let mut p: usize = 0;
    while p < v.len() && v[p] > h
        invariant
            p <= v.len(),
            forall|i: int| 0 <= i < p ==> v@[i] > h,
        decreases v.len() - p,
    {
        p = p + 1;
    }
    if p < v.len() && v[p] == h {
        assert(v@[p as int] == h);
        return;
    }
    let ghost before = v@;
    v.insert(p, h);
    proof {
        assert(v@ =~= before.subrange(0, p as int).push(h) + before.subrange(p as int, before.len() as int));
        assert forall|i: int, j: int| 0 <= i < j < v@.len() implies v@[i] > v@[j] by {
            if j < p {
            } else if j == p {
            } else if i < p {
                assert(before[j - 1] < h) by {
                    if j - 1 > p {
                        assert(before[p as int] > before[j - 1]);
                    }
                }
            } else if i == p {
                if j - 1 > p {
                    assert(before[p as int] > before[j - 1]);
                }
            } else {
                assert(before[i - 1] > before[j - 1]);
            }
        }
        assert forall|x: u32| #[trigger] v@.contains(x) <==> (before.contains(x) || x == h) by {
            if v@.contains(x) {
                let k = choose|k: int| 0 <= k < v@.len() && v@[k] == x;
                if k < p {
                    assert(before[k] == x);
                } else if k > p {
                    assert(before[k - 1] == x);
                }
            }
            if before.contains(x) {
                let k = choose|k: int| 0 <= k < before.len() && before[k] == x;
                if k < p {
                    assert(v@[k] == x);
                } else {
                    assert(v@[k + 1] == x);
                }
            }
            if x == h {
                assert(v@[p as int] == x);
            }
        }
    }
}

/// The heights of the video streams a video offers (H.264 or AV1), highest first, each once.
pub fn available_heights(info: &VideoInfo) -> (r: Vec<u32>)
    ensures
        strictly_decreasing(r@),
        forall|h: u32| #[trigger] r@.contains(h) <==> offered(views_of(info.formats@), h),
{
    let ghost fs = views_of(info.formats@);
    let mut out: Vec<u32> = Vec::new();
    let mut i: usize = 0;
    while i < info.formats.len()
        invariant
            i <= info.formats.len(),
            fs == views_of(info.formats@),
            strictly_decreasing(out@),
            forall|h: u32| #[trigger] out@.contains(h) <==> offered(fs.take(i as int), h),
        decreases info.formats.len() - i,
    {
        let f: &Format = &info.formats[i];
        let ok = f.kind == crate::sources::youtube::Kind::Video && (codec_is(f, "avc1") || codec_is(f, "av01"));
        proof {
            assert(fs[i as int] == f@);
            assert(ok == muxable(fs[i as int]));
        }
        let ghost prev = out@;
        if ok {
            insert_descending(&mut out, f.height);
        }
        proof {
            let t = fs.take(i as int + 1);
            assert forall|h: u32| #[trigger] out@.contains(h) <==> offered(t, h) by {
                if offered(t, h) {
                    let k = choose|k: int| 0 <= k < t.len() && muxable(t[k]) && #[trigger] t[k].height == h;
                    if k < i {
                        assert(fs.take(i as int)[k] == t[k]);
                        assert(offered(fs.take(i as int), h));
                    }
                }
                if offered(fs.take(i as int), h) {
                    let k = choose|k: int| 0 <= k < i && muxable(fs.take(i as int)[k]) && #[trigger] fs.take(i as int)[k].height == h;
                    assert(t[k] == fs.take(i as int)[k]);
                }
                assert(t[i as int] == f@);
                if ok && h == f.height {
                    assert(muxable(t[i as int]) && t[i as int].height == h);
                }
            }
        }
        i = i + 1;
    }
    proof {
        assert(fs.take(i as int) =~= fs);
    }
    out
}

} // verus!
