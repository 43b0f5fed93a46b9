//! The output `moov`: each input `trak` copied with its times, id and sample table rewritten.

use vstd::prelude::*;
use crate::media::bytes::{be32, be64, be32_value, be64_value, lemma_be32_roundtrip, lemma_be64_roundtrip, to_vec};
use crate::media::mp4::boxes::{
    Mp4Error, BoxNode, Span, bx, box_spec, flatten, views, push_part, put_dur, put_dur_spec, u32_spec, u64_spec,
    u8_at, u32_at, u64_at, children, children_spec, spans, same_typ, lemma_box_len,
};
use crate::media::mp4::track::{Track, TrackView, round_div, body_of, t4, lemma_span_end};
use crate::media::mp4::boxes::{find, find_spec, top_of, BoxNode as Node};
use crate::media::mp4::ilst::{build_udta, udta_spec, tags_len};
use crate::media::tags::Tags;
use crate::media::mp4::tables::{build_stbl, stbl_spec, tables_fit};

verus! {

/// What rewriting a `trak` needs besides the track: its new id, the movie timescale, the
/// track's duration in it, and whether chunk offsets take 64 bits.
#[derive(Clone, Copy, Debug, PartialEq, Eq)]
pub struct TrakCtx {
    pub track_id: u32,
    pub movie_ts: u32,
    pub dur_movie: u64,
    pub use64: bool,
}

/// `tkhd`: the new track id (after 64-bit times in version 1) and the duration in the movie
/// timescale.
pub open spec fn tkhd_spec(c: Seq<u8>, hdr: int, x: TrakCtx) -> Result<Seq<u8>, Mp4Error> {
    if hdr + 1 > c.len() {
        Err(Mp4Error::OutOfRange)
    } else {
        let v1 = c[hdr] == 1;
        let id_off = hdr + if v1 { 20int } else { 12 };
        let dur_off = hdr + if v1 { 28int } else { 20 };
        if id_off + 4 > c.len() {
            Err(Mp4Error::TkhdCorrupt)
        } else if dur_off + (if v1 { 8int } else { 4 }) > c.len() {
            Err(Mp4Error::HeaderTooShort)
        } else {
            Ok(put_dur_spec(put_dur_spec(c, id_off, x.track_id as u64, false), dur_off, x.dur_movie, v1))
        }
    }
}

/// `mdhd`: the duration in the track's own timescale.
pub open spec fn mdhd_spec(c: Seq<u8>, hdr: int, duration: u64) -> Result<Seq<u8>, Mp4Error> {
    if hdr + 1 > c.len() {
        Err(Mp4Error::OutOfRange)
    } else {
        let v1 = c[hdr] == 1;
        let dur_off = hdr + if v1 { 24int } else { 16 };
        if dur_off + (if v1 { 8int } else { 4 }) > c.len() {
            Err(Mp4Error::HeaderTooShort)
        } else {
            Ok(put_dur_spec(c, dur_off, duration, v1))
        }
    }
}

/// The new duration of an edit segment that starts at media time `mt` (track units): what is
/// left of the movie-timescale duration after it, rounded to the nearest unit, never negative.
pub open spec fn seg_spec(dur_movie: u64, mt: i64, ts: u32, movie_ts: u32) -> u64 {
    let n: int = dur_movie as int * ts as int - mt as int * movie_ts as int;
    if n <= 0 { 0 } else { round_div(n as nat, ts as nat) }
}

/// The entries of an `elst` from entry `i` on: each one that is not an empty edit (media
/// time -1) gets its segment duration rewritten.
pub open spec fn elst_loop(c: Seq<u8>, hdr: int, v1: bool, count: u32, i: int, x: TrakCtx, ts: u32) -> Result<Seq<u8>, Mp4Error>
    decreases count - i,
{
    if i >= count {
        Ok(c)
    } else {
        let o = hdr + 8 + i * if v1 { 20int } else { 12 };
        if o + (if v1 { 16int } else { 8 }) > c.len() {
            Err(Mp4Error::OutOfRange)
        } else {
            let mt: i64 = if v1 { u64_spec(c, o + 8) as i64 } else { u32_spec(c, o + 4) as i32 as i64 };
            if mt == -1 {
                elst_loop(c, hdr, v1, count, i + 1, x, ts)
            } else {
                elst_loop(put_dur_spec(c, o, seg_spec(x.dur_movie, mt, ts, x.movie_ts), v1), hdr, v1, count, i + 1, x, ts)
            }
        }
    }
}

/// `elst`: the segment durations fitted to the whole track.
pub open spec fn elst_spec(c: Seq<u8>, hdr: int, x: TrakCtx, ts: u32) -> Result<Seq<u8>, Mp4Error> {
    if hdr + 8 > c.len() {
        Err(Mp4Error::OutOfRange)
    } else {
        elst_loop(c, hdr, c[hdr] == 1, u32_spec(c, hdr + 4), 0, x, ts)
    }
}

fn version1(c: &Vec<u8>, hdr: usize) -> (r: Result<bool, Mp4Error>)
    ensures
        hdr + 1 <= c.len() ==> r == Ok::<bool, Mp4Error>(c@[hdr as int] == 1),
        hdr + 1 > c.len() ==> r == Err::<bool, Mp4Error>(Mp4Error::OutOfRange),
{
    let v = u8_at(c.as_slice(), hdr)?;
    Ok(v == 1)
}

fn tkhd_patch(c: &mut Vec<u8>, hdr: usize, x: TrakCtx) -> (r: Result<(), Mp4Error>)
    requires
        old(c).len() + 64 <= usize::MAX,
        hdr <= old(c).len(),
    ensures
        match tkhd_spec(old(c)@, hdr as int, x) {
            Ok(v) => r is Ok && final(c)@ == v,
            Err(e) => r == Err::<(), Mp4Error>(e),
        },
{
    let v1 = version1(c, hdr)?;
    let id_off = hdr + if v1 { 20 } else { 12 };
    if id_off + 4 > c.len() {
        return Err(Mp4Error::TkhdCorrupt);
    }
    let dur_off = hdr + if v1 { 28 } else { 20 };
    let w: usize = if v1 { 8 } else { 4 };
    if dur_off + w > c.len() {
        return Err(Mp4Error::HeaderTooShort);
    }
    put_dur(c, id_off, x.track_id as u64, false)?;
    put_dur(c, dur_off, x.dur_movie, v1)?;
    Ok(())
}

fn mdhd_patch(c: &mut Vec<u8>, hdr: usize, duration: u64) -> (r: Result<(), Mp4Error>)
    requires
        old(c).len() + 64 <= usize::MAX,
        hdr <= old(c).len(),
    ensures
        match mdhd_spec(old(c)@, hdr as int, duration) {
            Ok(v) => r is Ok && final(c)@ == v,
            Err(e) => r == Err::<(), Mp4Error>(e),
        },
{
    let v1 = version1(c, hdr)?;
    let dur_off = hdr + if v1 { 24 } else { 16 };
    put_dur(c, dur_off, duration, v1)
}

fn seg(dur_movie: u64, mt: i64, ts: u32, movie_ts: u32) -> (s: u64)
    requires
        ts > 0,
    ensures
        s == seg_spec(dur_movie, mt, ts, movie_ts),
{
    let a = dur_movie as i128;
    let b = ts as i128;
    let m = mt as i128;
    let k = movie_ts as i128;
    assert(a * b < 0x1_0000_0000_0000_0000_0000_0000 && a * b >= 0) by (nonlinear_arith)
        requires 0 <= a < 0x1_0000_0000_0000_0000, 0 <= b < 0x1_0000_0000;
    assert(-0x8000_0000_0000_0000_0000_0000 < m * k < 0x8000_0000_0000_0000_0000_0000) by (nonlinear_arith)
        requires -0x8000_0000_0000_0000 <= m < 0x8000_0000_0000_0000, 0 <= k < 0x1_0000_0000;
    let n = a * b - m * k;
    if n <= 0 {
        return 0;
    }
    let q = (2 * (n as u128) + ts as u128) / (2 * ts as u128);
    if q > 0xFFFF_FFFF_FFFF_FFFF {
        0xFFFF_FFFF_FFFF_FFFF
    } else {
        q as u64
    }
}

fn elst_patch(c: &mut Vec<u8>, hdr: usize, x: TrakCtx, ts: u32) -> (r: Result<(), Mp4Error>)
    requires
        old(c).len() + 64 <= usize::MAX,
        hdr <= old(c).len(),
        ts > 0,
    ensures
        match elst_spec(old(c)@, hdr as int, x, ts) {
            Ok(v) => r is Ok && final(c)@ == v,
            Err(e) => r == Err::<(), Mp4Error>(e),
        },
{
    if c.len() < 8 || hdr > c.len() - 8 {
        return Err(Mp4Error::OutOfRange);
    }
    let v1 = c[hdr] == 1;
    let count = u32_at(c.as_slice(), hdr + 4)?;
    let entry: usize = if v1 { 20 } else { 12 };
    let need: usize = if v1 { 16 } else { 8 };
    let ghost c0 = c@;
    let mut i: u32 = 0;
    let mut o = hdr + 8;
    while i < count
        invariant
            i <= count,
            c.len() == c0.len(),
            c0 == old(c)@,
            c0.len() + 64 <= usize::MAX,
            hdr + 8 <= c0.len(),
            ts > 0,
            v1 == (c0[hdr as int] == 1),
            entry == if v1 { 20int } else { 12 },
            need == if v1 { 16int } else { 8 },
            o == hdr + 8 + i * entry,
            o <= c0.len() + 20,
            count == u32_spec(c0, hdr + 4),
            elst_spec(c0, hdr as int, x, ts) == elst_loop(c@, hdr as int, v1, count, i as int, x, ts),
        decreases count - i,
    {
        if o + need > c.len() {
            assert(elst_loop(c@, hdr as int, v1, count, i as int, x, ts) == Err::<Seq<u8>, Mp4Error>(Mp4Error::OutOfRange));
            return Err(Mp4Error::OutOfRange);
        }
        let mt: i64 = if v1 {
            let v = u64_at(c.as_slice(), o + 8)?;
            #[verifier::truncate] (v as i64)
        } else {
            let v = u32_at(c.as_slice(), o + 4)?;
            (#[verifier::truncate] (v as i32)) as i64
        };
        if mt != -1 {
            put_dur(c, o, seg(x.dur_movie, mt, ts, x.movie_ts), v1)?;
        }
        proof {
            assert((i + 1) * entry == i * entry + entry) by (nonlinear_arith);
        }
        o = o + entry;
        i = i + 1;
    }
    Ok(())
}

pub open spec fn tkhd4() -> Seq<u8> { seq![0x74u8, 0x6b, 0x68, 0x64] }
pub open spec fn mdhd4() -> Seq<u8> { seq![0x6du8, 0x64, 0x68, 0x64] }
pub open spec fn elst4() -> Seq<u8> { seq![0x65u8, 0x6c, 0x73, 0x74] }
pub open spec fn stbl4() -> Seq<u8> { seq![0x73u8, 0x74, 0x62, 0x6c] }
pub open spec fn udta4() -> Seq<u8> { seq![0x75u8, 0x64, 0x74, 0x61] }

/// The boxes that are rebuilt from their rewritten children: `trak`, `mdia`, `minf`, `edts`.
pub open spec fn is_container(t: Seq<u8>) -> bool {
    t == seq![0x74u8, 0x72, 0x61, 0x6b] || t == seq![0x6du8, 0x64, 0x69, 0x61]
        || t == seq![0x6du8, 0x69, 0x6e, 0x66] || t == seq![0x65u8, 0x64, 0x74, 0x73]
}

/// A box of the track's `moov` as it goes into the output (`None`: left out). `tkhd`, `mdhd`
/// and `elst` get their times (and id) rewritten, `stbl` is rebuilt from the samples, `udta`
/// is dropped, containers are rebuilt from their children and the rest is copied.
pub open spec fn rewrite_spec(t: TrackView, n: Span, x: TrakCtx) -> Result<Option<Seq<u8>>, Mp4Error>
    decreases n.end - n.start, 1int, 0int,
{
    let c = t.moov.subrange(n.start, n.end);
    if n.typ == tkhd4() {
        match tkhd_spec(c, n.hdr, x) { Ok(v) => Ok(Some(v)), Err(e) => Err(e) }
    } else if n.typ == mdhd4() {
        match mdhd_spec(c, n.hdr, t.duration) { Ok(v) => Ok(Some(v)), Err(e) => Err(e) }
    } else if n.typ == elst4() {
        match elst_spec(c, n.hdr, x, t.timescale) { Ok(v) => Ok(Some(v)), Err(e) => Err(e) }
    } else if n.typ == stbl4() {
        Ok(Some(stbl_spec(t, x.use64)))
    } else if n.typ == udta4() {
        Ok(None)
    } else if !is_container(n.typ) {
        Ok(Some(c))
    } else {
        match children_spec(t.moov, n.start + n.hdr, n.end) {
            Err(e) => Err(e),
            Ok(kids) => match rewrite_list(t, kids, x, n.end - n.start) {
                Err(e) => Err(e),
                Ok(parts) => if parts.len() + 8 > usize::MAX {
                    Err(Mp4Error::Overflow)
                } else {
                    Ok(Some(box_spec(n.typ, parts)))
                },
            },
        }
    }
}

/// The children of a container rewritten one by one and laid end to end; every child is
/// smaller than its parent (`bound`).
pub open spec fn rewrite_list(t: TrackView, kids: Seq<Span>, x: TrakCtx, bound: int) -> Result<Seq<u8>, Mp4Error>
    decreases bound, 0int, kids.len(),
{
    if kids.len() == 0 {
        Ok(Seq::empty())
    } else if kids[0].end - kids[0].start < 0 || kids[0].end - kids[0].start >= bound {
        Err(Mp4Error::OutOfRange)
    } else {
        match rewrite_spec(t, kids[0], x) {
            Err(e) => Err(e),
            Ok(first) => match rewrite_list(t, kids.drop_first(), x, bound) {
                Err(e) => Err(e),
                Ok(rest) => Ok((if let Some(v) = first { v } else { Seq::empty() }) + rest),
            },
        }
    }
}

pub open spec fn prefix(p: Seq<u8>, r: Result<Seq<u8>, Mp4Error>) -> Result<Seq<u8>, Mp4Error> {
    match r {
        Ok(v) => Ok(p + v),
        Err(e) => Err(e),
    }
}

fn rewrite(t: &Track, n: &BoxNode, x: TrakCtx) -> (r: Result<Option<Vec<u8>>, Mp4Error>)
    requires
        t.wf(),
        tables_fit(t@),
        x.dur_movie == t.movie_duration_spec(x.movie_ts),
        n.wf(),
        n.start + n.hdr <= n.end <= t.moov.len(),
    ensures
        match rewrite_spec(t@, n.span(), x) {
            Ok(Some(v)) => r matches Ok(Some(w)) && w@ == v,
            Ok(None) => r matches Ok(None),
            Err(e) => r == Err::<Option<Vec<u8>>, Mp4Error>(e),
        },
    decreases n.end - n.start, 1int, 0int,
{
    let ghost nv = n.span();
    proof {
        reveal_strlit("trak");
    }
    if same_typ(&n.typ, &[0x74, 0x6b, 0x68, 0x64]) {
        assert(n.typ@ == tkhd4());
        let mut c = to_vec(&t.moov.as_slice()[n.start..n.end]);
        assert(c@ =~= t@.moov.subrange(nv.start, nv.end));
        tkhd_patch(&mut c, n.hdr, x)?;
        return Ok(Some(c));
    }
    if same_typ(&n.typ, &[0x6d, 0x64, 0x68, 0x64]) {
        assert(n.typ@ == mdhd4());
        let mut c = to_vec(&t.moov.as_slice()[n.start..n.end]);
        assert(c@ =~= t@.moov.subrange(nv.start, nv.end));
        mdhd_patch(&mut c, n.hdr, t.duration)?;
        return Ok(Some(c));
    }
    if same_typ(&n.typ, &[0x65, 0x6c, 0x73, 0x74]) {
        assert(n.typ@ == elst4());
        let mut c = to_vec(&t.moov.as_slice()[n.start..n.end]);
        assert(c@ =~= t@.moov.subrange(nv.start, nv.end));
        elst_patch(&mut c, n.hdr, x, t.timescale)?;
        return Ok(Some(c));
    }
    if same_typ(&n.typ, &[0x73, 0x74, 0x62, 0x6c]) {
        assert(n.typ@ == stbl4());
        return Ok(Some(build_stbl(t, x.use64)));
    }
    if same_typ(&n.typ, &[0x75, 0x64, 0x74, 0x61]) {
        assert(n.typ@ == udta4());
        return Ok(None);
    }
    let container = same_typ(&n.typ, &[0x74, 0x72, 0x61, 0x6b]) || same_typ(&n.typ, &[0x6d, 0x64, 0x69, 0x61])
        || same_typ(&n.typ, &[0x6d, 0x69, 0x6e, 0x66]) || same_typ(&n.typ, &[0x65, 0x64, 0x74, 0x73]);
    assert(container == is_container(n.typ@)) by {
        assert([0x74u8, 0x72, 0x61, 0x6b]@ =~= seq![0x74u8, 0x72, 0x61, 0x6b]);
        assert([0x6du8, 0x64, 0x69, 0x61]@ =~= seq![0x6du8, 0x64, 0x69, 0x61]);
        assert([0x6du8, 0x69, 0x6e, 0x66]@ =~= seq![0x6du8, 0x69, 0x6e, 0x66]);
        assert([0x65u8, 0x64, 0x74, 0x73]@ =~= seq![0x65u8, 0x64, 0x74, 0x73]);
    }
    if !container {
        let c = to_vec(&t.moov.as_slice()[n.start..n.end]);
        assert(c@ =~= t@.moov.subrange(nv.start, nv.end));
        return Ok(Some(c));
    }
    let kids = children(t.moov.as_slice(), n.body, n.end)?;
    let parts = rewrite_kids(t, &kids, x, n.end - n.start, n.body, n.end)?;
    let ghost pv = flatten(views(parts@));
    let mut total: usize = 0;
    let mut i: usize = 0;
    while i < parts.len()
        invariant
            i <= parts.len(),
            total == if flatten(views(parts@.subrange(0, i as int))).len() > usize::MAX { usize::MAX as nat }
                else { flatten(views(parts@.subrange(0, i as int))).len() },
        decreases parts.len() - i,
    {
        proof {
            let s = parts@.subrange(0, i + 1);
            assert(views(s).drop_last() =~= views(parts@.subrange(0, i as int)));
            assert(views(s).last() == parts@[i as int]@);
        }
        total = total.saturating_add(parts[i].len());
        i = i + 1;
    }
    assert(parts@.subrange(0, i as int) =~= parts@);
    if total > usize::MAX - 8 {
        return Err(Mp4Error::Overflow);
    }
    Ok(Some(bx(&n.typ, parts)))
}

fn rewrite_kids(t: &Track, kids: &Vec<BoxNode>, x: TrakCtx, bound: usize, body: usize, end: usize) -> (r: Result<Vec<Vec<u8>>, Mp4Error>)
    requires
        t.wf(),
        tables_fit(t@),
        x.dur_movie == t.movie_duration_spec(x.movie_ts),
        end <= t.moov.len(),
        children_spec(t.moov@, body as int, end as int) == Ok::<Seq<Span>, Mp4Error>(spans(kids@)),
        forall|j: int| 0 <= j < kids.len() ==> (#[trigger] kids@[j]).wf(),
    ensures
        match rewrite_list(t@, spans(kids@), x, bound as int) {
            Ok(v) => r matches Ok(parts) && flatten(views(parts@)) == v,
            Err(e) => r == Err::<Vec<Vec<u8>>, Mp4Error>(e),
        },
    decreases bound, 0int, kids.len(),
{
    let ghost all = spans(kids@);
    let ghost n = kids.len() as int;
    let mut parts: Vec<Vec<u8>> = Vec::new();
    let mut i: usize = 0;
    proof {
        assert(all.subrange(0, n) =~= all);
        assert(flatten(views(parts@)) =~= Seq::<u8>::empty());
        match rewrite_list(t@, all, x, bound as int) {
            Ok(v) => { assert(Seq::<u8>::empty() + v =~= v); }
            Err(_) => {}
        }
    }
    while i < kids.len()
        invariant
            i <= kids.len(),
            n == kids.len(),
            all == spans(kids@),
            t.wf(),
            tables_fit(t@),
            x.dur_movie == t.movie_duration_spec(x.movie_ts),
            end <= t.moov.len(),
            children_spec(t.moov@, body as int, end as int) == Ok::<Seq<Span>, Mp4Error>(all),
            forall|j: int| 0 <= j < kids.len() ==> (#[trigger] kids@[j]).wf(),
            rewrite_list(t@, all, x, bound as int)
                == prefix(flatten(views(parts@)), rewrite_list(t@, all.subrange(i as int, n), x, bound as int)),
        decreases kids.len() - i,
    {
        let k = kids[i];
        let ghost rest = all.subrange(i as int, n);
        proof {
            assert(rest[0] == k.span());
            assert(rest.drop_first() =~= all.subrange(i + 1, n));
            assert(kids@[i as int].wf());
            lemma_span_end(t.moov@, body as int, end as int, i as int);
            assert(all[i as int] == k.span());
        }
        if k.end < k.start || k.end - k.start >= bound {
            return Err(Mp4Error::OutOfRange);
        }
        let r = rewrite(t, &k, x)?;
        let ghost before = flatten(views(parts@));
        match r {
            Some(v) => {
                let ghost vv = v@;
                push_part(&mut parts, v);
                proof {
                    match rewrite_list(t@, all.subrange(i + 1, n), x, bound as int) {
                        Ok(w) => { assert(before + (vv + w) =~= before + vv + w); }
                        Err(_) => {}
                    }
                }
            }
            None => {
                proof {
                    match rewrite_list(t@, all.subrange(i + 1, n), x, bound as int) {
                        Ok(w) => { assert(before + (Seq::<u8>::empty() + w) =~= before + w); }
                        Err(_) => {}
                    }
                }
            }
        }
        i = i + 1;
    }
    proof {
        assert(all.subrange(i as int, n) =~= Seq::<Span>::empty());
        assert(flatten(views(parts@)) + Seq::<u8>::empty() =~= flatten(views(parts@)));
    }
    Ok(parts)
}

/// A track's duration in the movie timescale.
pub open spec fn movie_dur(t: TrackView, movie_ts: u32) -> u64 {
    round_div(t.duration as nat * movie_ts as nat, t.timescale as nat)
}

pub open spec fn ctx_of(t: TrackView, track_id: u32, movie_ts: u32, use64: bool) -> TrakCtx {
    TrakCtx { track_id, movie_ts, dur_movie: movie_dur(t, movie_ts), use64 }
}

/// The output `trak` of a track.
#[verifier::opaque]
pub open spec fn trak_spec(t: TrackView, track_id: u32, movie_ts: u32, use64: bool) -> Result<Seq<u8>, Mp4Error> {
    match rewrite_spec(t, t.trak, ctx_of(t, track_id, movie_ts, use64)) {
        Ok(Some(v)) => Ok(v),
        Ok(None) => Err(Mp4Error::EmptyTrak),
        Err(e) => Err(e),
    }
}

/// Builds the output `trak` of a track, with id `track_id`.
pub fn build_trak(t: &Track, track_id: u32, movie_ts: u32, use64: bool) -> (r: Result<Vec<u8>, Mp4Error>)
    requires
        t.wf(),
        tables_fit(t@),
    ensures
        match trak_spec(t@, track_id, movie_ts, use64) {
            Ok(v) => r matches Ok(w) && w@ == v,
            Err(e) => r == Err::<Vec<u8>, Mp4Error>(e),
        },
{
    reveal(trak_spec);
    let x = TrakCtx { track_id, movie_ts, dur_movie: t.movie_duration(movie_ts), use64 };
    match rewrite(t, &t.trak, x)? {
        Some(v) => Ok(v),
        None => Err(Mp4Error::EmptyTrak),
    }
}

/// The longest duration of the tracks in the movie timescale.
pub open spec fn max_dur(ts: Seq<TrackView>, movie_ts: u32) -> u64
    decreases ts.len(),
{
    if ts.len() == 0 {
        0
    } else {
        let m = max_dur(ts.drop_last(), movie_ts);
        let d = movie_dur(ts.last(), movie_ts);
        if d > m { d } else { m }
    }
}

/// The movie's duration is the longest of its tracks': no track lasts longer, and one of them
/// lasts exactly that long (none, for no tracks: 0).
pub proof fn lemma_movie_duration_is_longest(ts: Seq<TrackView>, movie_ts: u32)
    ensures
        forall|i: int| 0 <= i < ts.len() ==> movie_dur(#[trigger] ts[i], movie_ts) <= max_dur(ts, movie_ts),
        ts.len() > 0 ==> exists|i: int| 0 <= i < ts.len() && max_dur(ts, movie_ts) == movie_dur(#[trigger] ts[i], movie_ts),
        ts.len() == 0 ==> max_dur(ts, movie_ts) == 0,
    decreases ts.len(),
{
    if ts.len() > 0 {
        let t0 = ts.drop_last();
        lemma_movie_duration_is_longest(t0, movie_ts);
        assert forall|i: int| 0 <= i < ts.len() implies movie_dur(#[trigger] ts[i], movie_ts) <= max_dur(ts, movie_ts) by {
            if i < t0.len() {
                assert(ts[i] == t0[i]);
            }
        }
        if movie_dur(ts.last(), movie_ts) > max_dur(t0, movie_ts) || t0.len() == 0 {
            assert(max_dur(ts, movie_ts) == movie_dur(ts[ts.len() - 1], movie_ts));
        } else {
            let j = choose|j: int| 0 <= j < t0.len() && max_dur(t0, movie_ts) == movie_dur(#[trigger] t0[j], movie_ts);
            assert(ts[j] == t0[j]);
        }
    }
}

/// The output `trak`s, numbered from `first_id`, laid end to end.
pub open spec fn traks_spec(ts: Seq<TrackView>, movie_ts: u32, use64: bool) -> Result<Seq<u8>, Mp4Error>
    decreases ts.len(),
{
    if ts.len() == 0 {
        Ok(Seq::empty())
    } else {
        match traks_spec(ts.drop_last(), movie_ts, use64) {
            Err(e) => Err(e),
            Ok(pre) => match trak_spec(ts.last(), ts.len() as u32, movie_ts, use64) {
                Err(e) => Err(e),
                Ok(v) => Ok(pre + v),
            },
        }
    }
}

pub open spec fn mvhd4() -> [u8; 4] {
    [0x6du8, 0x76, 0x68, 0x64]
}

/// The first track's `mvhd` with the longest duration and the next track id (after the last
/// track), or the error on the way.
pub open spec fn mvhd_spec(ts: Seq<TrackView>, movie_ts: u32) -> Result<Seq<u8>, Mp4Error> {
    let m = ts[0].moov;
    match find_spec(m, 8, m.len() as int, mvhd4()) {
        Err(e) => Err(e),
        Ok(mv) => {
            let c = m.subrange(mv.start, mv.end);
            if mv.hdr + 1 > c.len() {
                Err(Mp4Error::OutOfRange)
            } else {
                let v1 = c[mv.hdr] == 1;
                let dur_off = mv.hdr + if v1 { 24int } else { 16 };
                if dur_off + (if v1 { 8int } else { 4 }) > c.len() || c.len() < 4 {
                    Err(Mp4Error::HeaderTooShort)
                } else {
                    let c2 = put_dur_spec(c, dur_off, max_dur(ts, movie_ts), v1);
                    Ok(c2.subrange(0, c2.len() - 4) + be32(ts.len() + 1))
                }
            }
        }
    }
}

/// The output `mvhd` is the first track's, of the same length, with the longest track's
/// duration at its duration field (32 bits, modulo 2^32, in a version-0 box; 64 bits in a
/// version-1 box) and the next track id, one past the number of tracks, in its last four
/// bytes.
pub proof fn lemma_mvhd_reads_back(ts: Seq<TrackView>, movie_ts: u32)
    requires
        ts.len() >= 1,
        ts.len() + 1 < 0x1_0000_0000,
    ensures
        ({
            let m = ts[0].moov;
            match (mvhd_spec(ts, movie_ts), find_spec(m, 8, m.len() as int, mvhd4())) {
                (Ok(v), Ok(mv)) => (0 <= mv.start && 0 <= mv.hdr) ==> {
                let c = m.subrange(mv.start, mv.end);
                let v1 = c[mv.hdr] == 1;
                let off = mv.hdr + if v1 { 24int } else { 16 };
                let w: int = if v1 { 8 } else { 4 };
                &&& v.len() == c.len()
                &&& be32_value(v.subrange(v.len() - 4, v.len() as int)) == ts.len() + 1
                &&& (off + w <= v.len() - 4 ==> if v1 {
                    be64_value(v.subrange(off, off + 8)) == max_dur(ts, movie_ts)
                } else {
                    be32_value(v.subrange(off, off + 4)) == max_dur(ts, movie_ts) as nat % 0x1_0000_0000
                })
                },
                _ => true,
            }
        }),
{
    let m = ts[0].moov;
    crate::media::mp4::track::lemma_find_inside_pub(m, 8, m.len() as int, mvhd4());
    match find_spec(m, 8, m.len() as int, mvhd4()) {
        Err(e) => {},
        Ok(mv) => {
            let c = m.subrange(mv.start, mv.end);
            if mv.hdr + 1 <= c.len() && 0 <= mv.start && 0 <= mv.hdr {
                let v1 = c[mv.hdr] == 1;
                let off = mv.hdr + if v1 { 24int } else { 16 };
                let w: int = if v1 { 8 } else { 4 };
                if !(off + w > c.len() || c.len() < 4) {
                    let d = max_dur(ts, movie_ts);
                    let c2 = put_dur_spec(c, off, d, v1);
                    let v = c2.subrange(0, c2.len() - 4) + be32(ts.len() + 1);
                    lemma_be32_roundtrip((ts.len() + 1) as u32);
                    lemma_be64_roundtrip(d);
                    lemma_be32_roundtrip((d as nat % 0x1_0000_0000) as u32);
                    assert(c2.len() == c.len());
                    assert(v.subrange(v.len() - 4, v.len() as int) =~= be32(ts.len() + 1));
                    if off + w <= v.len() - 4 {
                        if v1 {
                            assert(v.subrange(off, off + 8) =~= be64(d as nat));
                        } else {
                            assert(v.subrange(off, off + 4) =~= be32(d as nat % 0x1_0000_0000));
                        }
                    }
                }
            }
        },
    }
}

pub open spec fn tracks_view(v: Seq<Track>) -> Seq<TrackView> {
    Seq::new(v.len(), |i: int| v[i]@)
}

pub open spec fn opt_udta(tags: Option<Tags>) -> Seq<u8> {
    if let Some(t) = tags { udta_spec(t) } else { Seq::empty() }
}

/// The output `moov`: the first track's `mvhd` updated, each track's `trak` numbered from
/// 1, then the tags.
pub open spec fn moov_spec(ts: Seq<TrackView>, movie_ts: u32, use64: bool, tags: Option<Tags>) -> Result<Seq<u8>, Mp4Error> {
    match mvhd_spec(ts, movie_ts) {
        Err(e) => Err(e),
        Ok(mv) => match traks_spec(ts, movie_ts, use64) {
            Err(e) => Err(e),
            Ok(tr) => {
                let body = mv + tr + opt_udta(tags);
                if body.len() + 8 > usize::MAX {
                    Err(Mp4Error::Overflow)
                } else {
                    Ok(box_spec(seq![0x6du8, 0x6f, 0x6f, 0x76], body))
                }
            },
        },
    }
}

/// Every track fits the limits the output tables need.
pub open spec fn tracks_ok(v: Seq<Track>) -> bool {
    &&& v.len() >= 1
    &&& v.len() < u32::MAX
    &&& 4 * v.len() + 64 <= usize::MAX
    &&& forall|i: int| 0 <= i < v.len() ==> (#[trigger] v[i]).wf() && tables_fit(v[i]@)
}

pub open spec fn tags_ok(tags: Option<&Tags>) -> bool {
    match tags {
        Some(t) => tags_len(*t) + 512 <= usize::MAX,
        None => true,
    }
}

pub open spec fn opt_tags(tags: Option<&Tags>) -> Option<Tags> {
    match tags {
        Some(t) => Some(*t),
        None => None,
    }
}

fn mvhd_build(tracks: &Vec<Track>, movie_ts: u32) -> (r: Result<Vec<u8>, Mp4Error>)
    requires
        tracks_ok(tracks@),
    ensures
        match mvhd_spec(tracks_view(tracks@), movie_ts) {
            Ok(v) => r matches Ok(w) && w@ == v && w@.len() <= tracks@[0].moov.len(),
            Err(e) => r == Err::<Vec<u8>, Mp4Error>(e),
        },
{
    let ghost tv = tracks_view(tracks@);
    let first = &tracks[0];
    assert(tv[0] == first@);
    assert(first.wf());
    let top = top_of(first.moov.as_slice());
    let mvhd = find(first.moov.as_slice(), &top, &[0x6d, 0x76, 0x68, 0x64])?;
    proof {
        crate::media::mp4::track::lemma_find_inside_pub(first.moov@, 8, first.moov.len() as int, mvhd4());
    }
    let mut c = to_vec(&first.moov.as_slice()[mvhd.start..mvhd.end]);
    assert(c@ =~= first.moov@.subrange(mvhd.start as int, mvhd.end as int));
    let v1 = version1(&c, mvhd.hdr)?;
    let dur_off = mvhd.hdr + if v1 { 24 } else { 16 };
    let w: usize = if v1 { 8 } else { 4 };
    if dur_off + w > c.len() || c.len() < 4 {
        return Err(Mp4Error::HeaderTooShort);
    }
    let mut dur: u64 = 0;
    let mut i: usize = 0;
    while i < tracks.len()
        invariant
            i <= tracks.len(),
            tv == tracks_view(tracks@),
            tracks_ok(tracks@),
            dur == max_dur(tv.subrange(0, i as int), movie_ts),
        decreases tracks.len() - i,
    {
        assert(tv.subrange(0, i + 1).drop_last() =~= tv.subrange(0, i as int));
        assert(tracks@[i as int].wf());
        let d = tracks[i].movie_duration(movie_ts);
        if d > dur {
            dur = d;
        }
        i = i + 1;
    }
    assert(tv.subrange(0, i as int) =~= tv);
    put_dur(&mut c, dur_off, dur, v1)?;
    let n = c.len();
    let ghost c2 = c@;
    let next = (tracks.len() + 1) as u32;
    let mut k: usize = 0;
    let mut out: Vec<u8> = Vec::new();
    while k < n - 4
        invariant
            k <= n - 4,
            n == c.len(),
            n >= 4,
            c@ == c2,
            out@ == c2.subrange(0, k as int),
        decreases n - 4 - k,
    {
        out.push(c[k]);
        assert(c2.subrange(0, k + 1) =~= c2.subrange(0, k as int).push(c2[k as int]));
        k = k + 1;
    }
    crate::media::bytes::push_be32(&mut out, next);
    Ok(out)
}

/// Builds the output `moov` for the tracks (each with its chunk offsets already set).
pub fn build_moov(tracks: &Vec<Track>, movie_ts: u32, use64: bool, tags: Option<&Tags>) -> (r: Result<Vec<u8>, Mp4Error>)
    requires
        tracks_ok(tracks@),
        tags_ok(tags),
    ensures
        match moov_spec(tracks_view(tracks@), movie_ts, use64, opt_tags(tags)) {
            Ok(v) => r matches Ok(w) && w@ == v,
            Err(e) => r == Err::<Vec<u8>, Mp4Error>(e),
        },
{
    let ghost tv = tracks_view(tracks@);
    let mv = mvhd_build(tracks, movie_ts)?;
    let mut parts: Vec<Vec<u8>> = Vec::new();
    proof {
        assert(flatten(views(parts@)) =~= Seq::<u8>::empty());
    }
    let ghost mvv = mv@;
    push_part(&mut parts, mv);
    assert(Seq::<u8>::empty() + mvv =~= mvv);
    let mut i: usize = 0;
    assert(traks_spec(tv.subrange(0, 0), movie_ts, use64) == Ok::<Seq<u8>, Mp4Error>(Seq::empty()));
    assert(mvv + Seq::<u8>::empty() =~= mvv);
    while i < tracks.len()
        invariant
            i <= tracks.len(),
            tv == tracks_view(tracks@),
            tracks_ok(tracks@),
            mvhd_spec(tv, movie_ts) == Ok::<Seq<u8>, Mp4Error>(mvv),
            traks_spec(tv.subrange(0, i as int), movie_ts, use64) matches Ok(pre)
                && flatten(views(parts@)) == mvv + pre,
        decreases tracks.len() - i,
    {
        assert(tv.subrange(0, i + 1).drop_last() =~= tv.subrange(0, i as int));
        assert(tv.subrange(0, i + 1).last() == tracks@[i as int]@);
        assert(tracks@[i as int].wf() && tables_fit(tracks@[i as int]@));
        let ghost pre = traks_spec(tv.subrange(0, i as int), movie_ts, use64)->Ok_0;
        let tr = match build_trak(&tracks[i], (i + 1) as u32, movie_ts, use64) {
            Ok(v) => v,
            Err(e) => {
                proof {
                    lemma_traks_err(tv, i as int + 1, movie_ts, use64);
                }
                return Err(e);
            }
        };
        let ghost trv = tr@;
        push_part(&mut parts, tr);
        assert(mvv + pre + trv =~= mvv + (pre + trv));
        i = i + 1;
    }
    assert(tv.subrange(0, i as int) =~= tv);
    let ghost before = flatten(views(parts@));
    match tags {
        Some(t) => {
            push_part(&mut parts, build_udta(t));
        }
        None => {
            assert(before + Seq::<u8>::empty() =~= before);
        }
    }
    let ghost body = flatten(views(parts@));
    let mut total: usize = 0;
    let mut k: usize = 0;
    while k < parts.len()
        invariant
            k <= parts.len(),
            total == if flatten(views(parts@.subrange(0, k as int))).len() > usize::MAX { usize::MAX as nat }
                else { flatten(views(parts@.subrange(0, k as int))).len() },
        decreases parts.len() - k,
    {
        proof {
            let s = parts@.subrange(0, k + 1);
            assert(views(s).drop_last() =~= views(parts@.subrange(0, k as int)));
            assert(views(s).last() == parts@[k as int]@);
        }
        total = total.saturating_add(parts[k].len());
        k = k + 1;
    }
    assert(parts@.subrange(0, k as int) =~= parts@);
    if total > usize::MAX - 8 {
        return Err(Mp4Error::Overflow);
    }
    let typ: [u8; 4] = [0x6d, 0x6f, 0x6f, 0x76];
    assert(typ@ =~= seq![0x6du8, 0x6f, 0x6f, 0x76]);
    Ok(bx(&typ, parts))
}

/// An error in building the `trak` of track `k - 1` is the error of the whole list.
proof fn lemma_traks_err(tv: Seq<TrackView>, k: int, movie_ts: u32, use64: bool)
    requires
        1 <= k <= tv.len(),
        traks_spec(tv.subrange(0, k - 1), movie_ts, use64) is Ok,
        trak_spec(tv[k - 1], k as u32, movie_ts, use64) is Err,
    ensures
        traks_spec(tv, movie_ts, use64) == Err::<Seq<u8>, Mp4Error>(trak_spec(tv[k - 1], k as u32, movie_ts, use64)->Err_0),
    decreases tv.len() - k,
{
    let s = tv.subrange(0, k);
    assert(s.drop_last() =~= tv.subrange(0, k - 1));
    if k < tv.len() {
        lemma_traks_err_up(tv, k, movie_ts, use64);
    } else {
        assert(s =~= tv);
    }
}

proof fn lemma_traks_err_up(tv: Seq<TrackView>, k: int, movie_ts: u32, use64: bool)
    requires
        1 <= k <= tv.len(),
        traks_spec(tv.subrange(0, k), movie_ts, use64) is Err,
    ensures
        traks_spec(tv, movie_ts, use64) == traks_spec(tv.subrange(0, k), movie_ts, use64),
    decreases tv.len() - k,
{
    if k < tv.len() {
        assert(tv.subrange(0, k + 1).drop_last() =~= tv.subrange(0, k));
        lemma_traks_err_up(tv, k + 1, movie_ts, use64);
    } else {
        assert(tv.subrange(0, k) =~= tv);
    }
}

} // verus!
