//! Interleaving the tracks: the order of their chunks in the output and where each goes.

use vstd::prelude::*;
use crate::media::mp4::track::{Track, TrackView, Chunk, read_track, track_spec, moofs_view};
use crate::media::mp4::tables::tables_fit;
use crate::media::mp4::moov::{tracks_view, tracks_ok, tags_ok, opt_tags, moov_spec, build_moov, mvhd4};
use crate::media::mp4::boxes::{find, find_spec, top_of, u8_at, u32_at, u32_spec, bx, box_spec, w32, flatten, views, push_part, fourcc, lemma_box_len};
use crate::media::mp4::track::body_of;
use crate::media::tags::Tags;
use crate::media::bytes::{be32, be64, push_be32, push_be64};
use crate::media::mp4::boxes::Mp4Error;

verus! {

// ---------- chunk order ----------

/// `(track, chunk)` names a chunk of the tracks.
pub open spec fn valid_entry(tv: Seq<TrackView>, e: (usize, usize)) -> bool {
    e.0 < tv.len() && e.1 < tv[e.0 as int].chunks.len()
}

pub open spec fn chunk_of(tv: Seq<TrackView>, e: (usize, usize)) -> Chunk {
    tv[e.0 as int].chunks[e.1 as int]
}

/// Chunk `a` starts strictly before chunk `b` (decode times in seconds).
pub open spec fn time_lt(tv: Seq<TrackView>, a: (usize, usize), b: (usize, usize)) -> bool {
    (chunk_of(tv, a).dts as int) * (tv[b.0 as int].timescale as int) < (chunk_of(tv, b).dts as int) * (tv[a.0 as int].timescale as int)
}

/// The output order: by start time, then by track, then by position in the track.
pub open spec fn key_lt(tv: Seq<TrackView>, a: (usize, usize), b: (usize, usize)) -> bool {
    time_lt(tv, a, b) || (!time_lt(tv, b, a) && (a.0 < b.0 || (a.0 == b.0 && a.1 < b.1)))
}

/// `e` lists every chunk of the tracks exactly once, in output order.
pub open spec fn entries_ok(tv: Seq<TrackView>, e: Seq<(usize, usize)>) -> bool {
    &&& forall|i: int| 0 <= i < e.len() ==> valid_entry(tv, #[trigger] e[i])
    &&& forall|i: int, j: int| 0 <= i < j < e.len() ==> key_lt(tv, #[trigger] e[i], #[trigger] e[j])
    &&& forall|p: (usize, usize)| valid_entry(tv, p) ==> exists|i: int| 0 <= i < e.len() && #[trigger] e[i] == p
}

pub open spec fn timescales_ok(tv: Seq<TrackView>) -> bool {
    forall|i: int| 0 <= i < tv.len() ==> #[trigger] tv[i].timescale > 0
}

proof fn lemma_time_trans(a: int, sa: int, b: int, sb: int, c: int, sc: int)
    requires
        sa > 0, sb > 0, sc > 0, a >= 0, b >= 0, c >= 0,
    ensures
        a * sb < b * sa && b * sc < c * sb ==> a * sc < c * sa,
        a * sb < b * sa && b * sc == c * sb ==> a * sc < c * sa,
        a * sb == b * sa && b * sc < c * sb ==> a * sc < c * sa,
        a * sb == b * sa && b * sc == c * sb ==> a * sc == c * sa,
        !(a * sb < b * sa) && !(b * sa < a * sb) ==> a * sb == b * sa,
{
    if a * sb < b * sa && b * sc < c * sb {
        assert(a * sb * sc < b * sa * sc) by (nonlinear_arith) requires a * sb < b * sa, sc > 0;
        assert(b * sc * sa < c * sb * sa) by (nonlinear_arith) requires b * sc < c * sb, sa > 0;
        assert(a * sc * sb < c * sa * sb) by (nonlinear_arith)
            requires a * sb * sc < b * sa * sc, b * sc * sa < c * sb * sa;
        assert(a * sc < c * sa) by (nonlinear_arith) requires a * sc * sb < c * sa * sb, sb > 0;
    }
    if a * sb < b * sa && b * sc == c * sb {
        assert(a * sb * sc < b * sa * sc) by (nonlinear_arith) requires a * sb < b * sa, sc > 0;
        assert(b * sc * sa == c * sb * sa) by (nonlinear_arith) requires b * sc == c * sb;
        assert(a * sc * sb < c * sa * sb) by (nonlinear_arith)
            requires a * sb * sc < b * sa * sc, b * sc * sa == c * sb * sa;
        assert(a * sc < c * sa) by (nonlinear_arith) requires a * sc * sb < c * sa * sb, sb > 0;
    }
    if a * sb == b * sa && b * sc < c * sb {
        assert(a * sb * sc == b * sa * sc) by (nonlinear_arith) requires a * sb == b * sa;
        assert(b * sc * sa < c * sb * sa) by (nonlinear_arith) requires b * sc < c * sb, sa > 0;
        assert(a * sc * sb < c * sa * sb) by (nonlinear_arith)
            requires a * sb * sc == b * sa * sc, b * sc * sa < c * sb * sa;
        assert(a * sc < c * sa) by (nonlinear_arith) requires a * sc * sb < c * sa * sb, sb > 0;
    }
    if a * sb == b * sa && b * sc == c * sb {
        assert(a * sb * sc == b * sa * sc) by (nonlinear_arith) requires a * sb == b * sa;
        assert(b * sc * sa == c * sb * sa) by (nonlinear_arith) requires b * sc == c * sb;
        assert(a * sc * sb == c * sa * sb) by (nonlinear_arith)
            requires a * sb * sc == b * sa * sc, b * sc * sa == c * sb * sa;
        assert(a * sc == c * sa) by (nonlinear_arith) requires a * sc * sb == c * sa * sb, sb > 0;
    }
}

/// The output order is a strict order: transitive, and any two different chunks compare.
pub proof fn lemma_key_order(tv: Seq<TrackView>, a: (usize, usize), b: (usize, usize), c: (usize, usize))
    requires
        timescales_ok(tv),
        valid_entry(tv, a),
        valid_entry(tv, b),
        valid_entry(tv, c),
    ensures
        key_lt(tv, a, b) && key_lt(tv, b, c) ==> key_lt(tv, a, c),
        a != b ==> key_lt(tv, a, b) || key_lt(tv, b, a),
        !key_lt(tv, a, a),
        key_lt(tv, a, b) ==> !key_lt(tv, b, a),
{
    let (x, sx) = (chunk_of(tv, a).dts as int, tv[a.0 as int].timescale as int);
    let (y, sy) = (chunk_of(tv, b).dts as int, tv[b.0 as int].timescale as int);
    let (z, sz) = (chunk_of(tv, c).dts as int, tv[c.0 as int].timescale as int);
    lemma_time_trans(x, sx, y, sy, z, sz);
    lemma_time_trans(y, sy, x, sx, z, sz);
    lemma_time_trans(x, sx, z, sz, y, sy);
    lemma_time_trans(z, sz, x, sx, y, sy);
    lemma_time_trans(y, sy, z, sz, x, sx);
    lemma_time_trans(z, sz, y, sy, x, sx);
    lemma_time_trans(x, sx, y, sy, x, sx);
    lemma_time_trans(y, sy, x, sx, y, sy);
}

fn key_less(tracks: &Vec<Track>, a: (usize, usize), b: (usize, usize)) -> (r: bool)
    requires
        valid_entry(tracks_view(tracks@), a),
        valid_entry(tracks_view(tracks@), b),
    ensures
        r == key_lt(tracks_view(tracks@), a, b),
{
    let ghost tv = tracks_view(tracks@);
    assert(tv[a.0 as int] == tracks@[a.0 as int]@);
    assert(tv[b.0 as int] == tracks@[b.0 as int]@);
    let ta = &tracks[a.0];
    let tb = &tracks[b.0];
    let da = ta.chunks[a.1].dts as u128;
    let db = tb.chunks[b.1].dts as u128;
    let sa = ta.timescale as u128;
    let sb = tb.timescale as u128;
    assert(da * sb < 0x1_0000_0000_0000_0000_0000_0000) by (nonlinear_arith)
        requires da < 0x1_0000_0000_0000_0000, sb < 0x1_0000_0000;
    assert(db * sa < 0x1_0000_0000_0000_0000_0000_0000) by (nonlinear_arith)
        requires db < 0x1_0000_0000_0000_0000, sa < 0x1_0000_0000;
    let ab = da * sb < db * sa;
    let ba = db * sa < da * sb;
    ab || (!ba && (a.0 < b.0 || (a.0 == b.0 && a.1 < b.1)))
}

/// Entries listed so far: the chunks of the earlier tracks, and those before `ci` of track `ti`.
pub open spec fn processed(p: (usize, usize), ti: int, ci: int) -> bool {
    p.0 < ti || (p.0 == ti && p.1 < ci)
}

pub open spec fn sorted_by_key(tv: Seq<TrackView>, e: Seq<(usize, usize)>) -> bool {
    forall|i: int, j: int| 0 <= i < j < e.len() ==> key_lt(tv, #[trigger] e[i], #[trigger] e[j])
}

/// Inserting a new entry where it belongs keeps the list sorted.
proof fn lemma_insert_sorted(tv: Seq<TrackView>, e: Seq<(usize, usize)>, x: (usize, usize), p: int)
    requires
        timescales_ok(tv),
        sorted_by_key(tv, e),
        forall|i: int| 0 <= i < e.len() ==> valid_entry(tv, #[trigger] e[i]) && e[i] != x,
        valid_entry(tv, x),
        0 <= p <= e.len(),
        forall|j: int| 0 <= j < p ==> !key_lt(tv, x, #[trigger] e[j]),
        p < e.len() ==> key_lt(tv, x, e[p]),
    ensures
        sorted_by_key(tv, e.insert(p, x)),
{
    let n = e.insert(p, x);
    assert forall|j: int| 0 <= j < p implies key_lt(tv, #[trigger] e[j], x) by {
        lemma_key_order(tv, e[j], x, x);
    }
    assert forall|j: int| p <= j < e.len() implies key_lt(tv, x, #[trigger] e[j]) by {
        if j > p {
            assert(key_lt(tv, e[p], e[j]));
            lemma_key_order(tv, x, e[p], e[j]);
        }
    }
    assert forall|i: int, j: int| 0 <= i < j < n.len() implies key_lt(tv, #[trigger] n[i], #[trigger] n[j]) by {
        if i < p && j < p {
            assert(n[i] == e[i] && n[j] == e[j]);
        } else if i < p && j == p {
            assert(n[i] == e[i] && n[j] == x);
        } else if i < p && j > p {
            assert(n[i] == e[i] && n[j] == e[j - 1]);
            if j - 1 >= p {
                lemma_key_order(tv, e[i], x, e[j - 1]);
            } else {
                assert(key_lt(tv, e[i], e[j - 1]));
            }
        } else if i == p {
            assert(n[i] == x && n[j] == e[j - 1]);
        } else {
            assert(n[i] == e[i - 1] && n[j] == e[j - 1]);
        }
    }
}

/// Lists every chunk of the tracks once, in output order.
pub fn order_entries(tracks: &Vec<Track>) -> (e: Vec<(usize, usize)>)
    requires
        timescales_ok(tracks_view(tracks@)),
    ensures
        entries_ok(tracks_view(tracks@), e@),
{
    let ghost tv = tracks_view(tracks@);
    let mut e: Vec<(usize, usize)> = Vec::new();
    let mut ti: usize = 0;
    while ti < tracks.len()
        invariant
            ti <= tracks.len(),
            tv == tracks_view(tracks@),
            timescales_ok(tv),
            sorted_by_key(tv, e@),
            forall|i: int| 0 <= i < e.len() ==> valid_entry(tv, #[trigger] e@[i]) && processed(e@[i], ti as int, 0),
            forall|p: (usize, usize)| valid_entry(tv, p) && processed(p, ti as int, 0)
                ==> exists|i: int| 0 <= i < e.len() && #[trigger] e@[i] == p,
        decreases tracks.len() - ti,
    {
        assert(tv[ti as int] == tracks@[ti as int]@);
        let mut ci: usize = 0;
        while ci < tracks[ti].chunks.len()
            invariant
                ti < tracks.len(),
                ci <= tracks@[ti as int].chunks.len(),
                tv == tracks_view(tracks@),
                tv[ti as int] == tracks@[ti as int]@,
                timescales_ok(tv),
                sorted_by_key(tv, e@),
                forall|i: int| 0 <= i < e.len() ==> valid_entry(tv, #[trigger] e@[i]) && processed(e@[i], ti as int, ci as int),
                forall|p: (usize, usize)| valid_entry(tv, p) && processed(p, ti as int, ci as int)
                    ==> exists|i: int| 0 <= i < e.len() && #[trigger] e@[i] == p,
            decreases tracks@[ti as int].chunks.len() - ci,
        {
            let x = (ti, ci);
            assert(valid_entry(tv, x));
            let mut p: usize = 0;
            while p < e.len() && !key_less(tracks, x, e[p])
                invariant
                    p <= e.len(),
                    tv == tracks_view(tracks@),
                    valid_entry(tv, x),
                    forall|i: int| 0 <= i < e.len() ==> valid_entry(tv, #[trigger] e@[i]),
                    forall|j: int| 0 <= j < p ==> !key_lt(tv, x, #[trigger] e@[j]),
                decreases e.len() - p,
            {
                p = p + 1;
            }
            proof {
                assert forall|i: int| 0 <= i < e.len() implies valid_entry(tv, #[trigger] e@[i]) && e@[i] != x by {
                    assert(processed(e@[i], ti as int, ci as int));
                }
                lemma_insert_sorted(tv, e@, x, p as int);
            }
            let ghost old_e = e@;
            e.insert(p, x);
            proof {
                assert forall|i: int| 0 <= i < e.len() implies valid_entry(tv, #[trigger] e@[i])
                    && processed(e@[i], ti as int, ci + 1) by {
                    if i < p {
                        assert(e@[i] == old_e[i]);
                    } else if i > p {
                        assert(e@[i] == old_e[i - 1]);
                    }
                }
                assert forall|q: (usize, usize)| valid_entry(tv, q) && processed(q, ti as int, ci + 1)
                    implies exists|i: int| 0 <= i < e.len() && #[trigger] e@[i] == q by {
                    if q == x {
                        assert(e@[p as int] == q);
                    } else {
                        assert(processed(q, ti as int, ci as int));
                        let i = choose|i: int| 0 <= i < old_e.len() && #[trigger] old_e[i] == q;
                        if i < p {
                            assert(e@[i] == q);
                        } else {
                            assert(e@[i + 1] == q);
                        }
                    }
                }
            }
            ci = ci + 1;
        }
        proof {
            assert forall|q: (usize, usize)| valid_entry(tv, q) && processed(q, ti + 1, 0)
                implies exists|i: int| 0 <= i < e.len() && #[trigger] e@[i] == q by {
                assert(processed(q, ti as int, ci as int));
            }
            assert forall|i: int| 0 <= i < e.len() implies valid_entry(tv, #[trigger] e@[i]) && processed(e@[i], ti + 1, 0) by {
                assert(processed(e@[i], ti as int, ci as int));
            }
        }
        ti = ti + 1;
    }
    proof {
        assert forall|q: (usize, usize)| valid_entry(tv, q) implies exists|i: int| 0 <= i < e.len() && #[trigger] e@[i] == q by {
            assert(processed(q, ti as int, 0));
        }
    }
    e
}

// ---------- where each chunk goes ----------

/// Bytes of the chunks before position `k` of the order.
pub open spec fn prefix_len(tv: Seq<TrackView>, e: Seq<(usize, usize)>, k: int) -> nat
    decreases k,
{
    if k <= 0 { 0 } else { prefix_len(tv, e, k - 1) + chunk_of(tv, e[k - 1]).len as nat }
}

/// A chunk placed `rel` bytes into the media data, at `out` in the output.
pub open spec fn placed(c: Chunk, rel: u64, out: u64) -> Chunk {
    Chunk { src: c.src, len: c.len, count: c.count, dts: c.dts, rel, out }
}

/// A track with other chunks.
pub open spec fn with_chunks(t: TrackView, c: Seq<Chunk>) -> TrackView {
    TrackView {
        moov: t.moov,
        trak: t.trak,
        stsd: t.stsd,
        timescale: t.timescale,
        fourcc: t.fourcc,
        samples: t.samples,
        chunks: c,
        duration: t.duration,
    }
}

/// The position of a chunk in the order.
pub open spec fn pos_of(e: Seq<(usize, usize)>, p: (usize, usize)) -> int {
    choose|k: int| 0 <= k < e.len() && e[k] == p
}

/// The tracks with each chunk's offset in the media data (`rel`, and `out` as if the media
/// data started at 0) set by the order `e`.
pub open spec fn rel_view(tv: Seq<TrackView>, e: Seq<(usize, usize)>) -> Seq<TrackView> {
    Seq::new(tv.len(), |i: int| with_chunks(tv[i], Seq::new(tv[i].chunks.len(), |j: int| {
        let r = prefix_len(tv, e, pos_of(e, (i as usize, j as usize))) as u64;
        placed(tv[i].chunks[j], r, r)
    })))
}

/// The tracks with each chunk's output offset `start + rel`.
pub open spec fn with_out(rv: Seq<TrackView>, start: u64) -> Seq<TrackView> {
    Seq::new(rv.len(), |i: int| with_chunks(rv[i], Seq::new(rv[i].chunks.len(), |j: int|
        placed(rv[i].chunks[j], rv[i].chunks[j].rel, (start + rv[i].chunks[j].rel) as u64))))
}

fn set_chunk(tracks: &mut Vec<Track>, ti: usize, ci: usize, c: Chunk)
    requires
        ti < old(tracks).len(),
        ci < old(tracks)@[ti as int].chunks.len(),
    ensures
        final(tracks)@.len() == old(tracks)@.len(),
        forall|i: int| 0 <= i < old(tracks)@.len() && i != ti ==> #[trigger] final(tracks)@[i] == old(tracks)@[i],
        final(tracks)@[ti as int]@ == with_chunks(old(tracks)@[ti as int]@, old(tracks)@[ti as int].chunks@.update(ci as int, c)),
        final(tracks)@[ti as int].wf() == old(tracks)@[ti as int].wf(),
{
    let t = &mut tracks[ti];
    t.chunks.set(ci, c);
}

/// Different positions of the order hold different chunks.
proof fn lemma_entries_unique(tv: Seq<TrackView>, e: Seq<(usize, usize)>, i: int, j: int)
    requires
        timescales_ok(tv),
        entries_ok(tv, e),
        0 <= i < e.len(),
        0 <= j < e.len(),
        i != j,
    ensures
        e[i] != e[j],
{
    if i < j {
        assert(key_lt(tv, e[i], e[j]));
        lemma_key_order(tv, e[i], e[i], e[i]);
    } else {
        assert(key_lt(tv, e[j], e[i]));
        lemma_key_order(tv, e[j], e[j], e[j]);
    }
}

proof fn lemma_entries_agree(tv: Seq<TrackView>, e1: Seq<(usize, usize)>, e2: Seq<(usize, usize)>, k: int)
    requires
        timescales_ok(tv),
        entries_ok(tv, e1),
        entries_ok(tv, e2),
        0 <= k <= e1.len(),
        k <= e2.len(),
    ensures
        forall|i: int| 0 <= i < k ==> #[trigger] e1[i] == e2[i],
    decreases k,
{
    if k > 0 {
        let t = k - 1;
        lemma_entries_agree(tv, e1, e2, t);
        let a = e1[t];
        let b = e2[t];
        if a != b {
            assert(valid_entry(tv, a));
            assert(valid_entry(tv, b));
            let j = choose|j: int| 0 <= j < e2.len() && #[trigger] e2[j] == a;
            let m = choose|m: int| 0 <= m < e1.len() && #[trigger] e1[m] == b;
            if j < t {
                assert(e1[j] == e2[j]);
                lemma_entries_unique(tv, e1, j, t);
            }
            if m < t {
                assert(e1[m] == e2[m]);
                lemma_entries_unique(tv, e2, m, t);
            }
            assert(j > t && m > t);
            assert(key_lt(tv, e2[t], e2[j]));
            assert(key_lt(tv, e1[t], e1[m]));
            lemma_key_order(tv, a, b, a);
        }
    }
}

/// There is only one way to list the chunks in output order.
pub proof fn lemma_entries_determined(tv: Seq<TrackView>, e1: Seq<(usize, usize)>, e2: Seq<(usize, usize)>)
    requires
        timescales_ok(tv),
        entries_ok(tv, e1),
        entries_ok(tv, e2),
    ensures
        e1 == e2,
{
    let n = if e1.len() <= e2.len() { e1.len() as int } else { e2.len() as int };
    lemma_entries_agree(tv, e1, e2, n);
    if e1.len() > e2.len() {
        let x = e1[n];
        assert(valid_entry(tv, x));
        let j = choose|j: int| 0 <= j < e2.len() && #[trigger] e2[j] == x;
        assert(e1[j] == e2[j]);
        lemma_entries_unique(tv, e1, j, n);
    }
    if e2.len() > e1.len() {
        let x = e2[n];
        assert(valid_entry(tv, x));
        let j = choose|j: int| 0 <= j < e1.len() && #[trigger] e1[j] == x;
        assert(e1[j] == e2[j]);
        lemma_entries_unique(tv, e2, j, n);
    }
    assert(e1 =~= e2);
}

proof fn lemma_prefix_mono(tv: Seq<TrackView>, e: Seq<(usize, usize)>, a: int, b: int)
    requires
        0 <= a <= b,
    ensures
        prefix_len(tv, e, a) <= prefix_len(tv, e, b),
    decreases b - a,
{
    if a < b {
        lemma_prefix_mono(tv, e, a, b - 1);
    }
}

/// The state of the tracks while chunks are being placed: only chunks change, and the first
/// `k` chunks of the order are placed.
#[verifier::opaque]
pub open spec fn placing(tv: Seq<TrackView>, e: Seq<(usize, usize)>, ts: Seq<Track>, k: int) -> bool {
    &&& ts.len() == tv.len()
    &&& forall|i: int| 0 <= i < ts.len() ==> (#[trigger] ts[i]).wf()
    &&& forall|i: int| 0 <= i < ts.len() ==> (#[trigger] ts[i])@ == with_chunks(tv[i], ts[i].chunks@)
        && ts[i].chunks@.len() == tv[i].chunks.len()
    &&& forall|j: int| 0 <= j < k ==> chunk_of(tracks_view(ts), #[trigger] e[j])
        == placed(chunk_of(tv, e[j]), prefix_len(tv, e, j) as u64, prefix_len(tv, e, j) as u64)
    &&& forall|j: int| k <= j < e.len() ==> chunk_of(tracks_view(ts), #[trigger] e[j]) == chunk_of(tv, e[j])
}

proof fn lemma_place_step(tv: Seq<TrackView>, e: Seq<(usize, usize)>, before: Seq<Track>, after: Seq<Track>, k: int)
    requires
        timescales_ok(tv),
        entries_ok(tv, e),
        0 <= k < e.len(),
        placing(tv, e, before, k),
        prefix_len(tv, e, k) <= u64::MAX,
        after.len() == before.len(),
        forall|i: int| 0 <= i < before.len() && i != e[k].0 ==> #[trigger] after[i] == before[i],
        after[e[k].0 as int]@ == with_chunks(before[e[k].0 as int]@, before[e[k].0 as int].chunks@.update(e[k].1 as int,
            placed(chunk_of(tv, e[k]), prefix_len(tv, e, k) as u64, prefix_len(tv, e, k) as u64))),
        after[e[k].0 as int].wf() == before[e[k].0 as int].wf(),
    ensures
        placing(tv, e, after, k + 1),
{
    reveal(placing);
    let (ti, ci) = e[k];
    assert(valid_entry(tv, e[k]));
    assert(tracks_view(before)[ti as int] == before[ti as int]@);
    assert(tracks_view(after)[ti as int] == after[ti as int]@);
    assert forall|j: int| 0 <= j < e.len() && j != k implies
        chunk_of(tracks_view(after), #[trigger] e[j]) == chunk_of(tracks_view(before), e[j]) by {
        lemma_entries_unique(tv, e, j, k);
        let q = e[j];
        assert(valid_entry(tv, q));
        assert(tracks_view(after)[q.0 as int] == after[q.0 as int]@);
        assert(tracks_view(before)[q.0 as int] == before[q.0 as int]@);
    }
    assert forall|i: int| 0 <= i < after.len() implies (#[trigger] after[i])@ == with_chunks(tv[i], after[i].chunks@)
        && after[i].chunks@.len() == tv[i].chunks.len() && after[i].wf() by {
        if i != ti {
            assert(after[i] == before[i]);
        }
    }
}

proof fn lemma_placing_at(tv: Seq<TrackView>, e: Seq<(usize, usize)>, ts: Seq<Track>, k: int)
    requires
        entries_ok(tv, e),
        placing(tv, e, ts, k),
        0 <= k < e.len(),
    ensures
        ts.len() == tv.len(),
        e[k].0 < ts.len(),
        e[k].1 < ts[e[k].0 as int].chunks@.len(),
        ts[e[k].0 as int].chunks@[e[k].1 as int] == chunk_of(tv, e[k]),
        ts[e[k].0 as int].wf(),
{
    reveal(placing);
    assert(valid_entry(tv, e[k]));
    assert(tracks_view(ts)[e[k].0 as int] == ts[e[k].0 as int]@);
}

proof fn lemma_placing_start(tv: Seq<TrackView>, e: Seq<(usize, usize)>, ts: Seq<Track>)
    requires
        tv == tracks_view(ts),
        forall|i: int| 0 <= i < ts.len() ==> (#[trigger] ts[i]).wf(),
    ensures
        placing(tv, e, ts, 0),
{
    reveal(placing);
    assert forall|i: int| 0 <= i < ts.len() implies (#[trigger] ts[i])@ == with_chunks(tv[i], ts[i].chunks@) by {
        assert(tv[i] == ts[i]@);
    }
}

proof fn lemma_placing_wf(tv: Seq<TrackView>, e: Seq<(usize, usize)>, ts: Seq<Track>, k: int)
    requires
        placing(tv, e, ts, k),
    ensures
        forall|i: int| 0 <= i < ts.len() ==> (#[trigger] ts[i]).wf(),
{
    reveal(placing);
}

proof fn lemma_place_done(tv: Seq<TrackView>, e: Seq<(usize, usize)>, ts: Seq<Track>)
    requires
        timescales_ok(tv),
        entries_ok(tv, e),
        placing(tv, e, ts, e.len() as int),
        forall|i: int| 0 <= i < ts.len() ==> (#[trigger] ts[i]).chunks@.len() <= usize::MAX,
        ts.len() <= usize::MAX,
    ensures
        tracks_view(ts) == rel_view(tv, e),
{
    reveal(placing);
    let fv = tracks_view(ts);
    let rv = rel_view(tv, e);
    assert forall|i: int| 0 <= i < tv.len() implies #[trigger] fv[i] == rv[i] by {
        assert(fv[i] == ts[i]@);
        assert forall|j: int| 0 <= j < tv[i].chunks.len() implies #[trigger] fv[i].chunks[j] == rv[i].chunks[j] by {
            let p = (i as usize, j as usize);
            assert(ts[i].chunks@.len() == tv[i].chunks.len());
            assert(valid_entry(tv, p));
            let k0 = choose|k0: int| 0 <= k0 < e.len() && e[k0] == p;
            let kp = pos_of(e, p);
            if kp != k0 {
                lemma_entries_unique(tv, e, kp, k0);
            }
            assert(chunk_of(fv, e[k0]) == fv[i].chunks[j]);
        }
        assert(fv[i].chunks =~= rv[i].chunks);
    }
    assert(fv =~= rv);
}

/// Sets each chunk's offset in the media data, following the order; gives the total size
/// of the media data, or `Overflow` when it does not fit in 64 bits.
fn place_chunks(tracks: &mut Vec<Track>, e: &Vec<(usize, usize)>) -> (r: Result<u64, Mp4Error>)
    requires
        timescales_ok(tracks_view(old(tracks)@)),
        entries_ok(tracks_view(old(tracks)@), e@),
        forall|i: int| 0 <= i < old(tracks)@.len() ==> (#[trigger] old(tracks)@[i]).wf(),
    ensures
        match r {
            Ok(total) => total == prefix_len(tracks_view(old(tracks)@), e@, e@.len() as int)
                && tracks_view(final(tracks)@) == rel_view(tracks_view(old(tracks)@), e@)
                && forall|i: int| 0 <= i < final(tracks)@.len() ==> (#[trigger] final(tracks)@[i]).wf(),
            Err(x) => x == Mp4Error::Overflow && prefix_len(tracks_view(old(tracks)@), e@, e@.len() as int) > u64::MAX,
        },
{
    let ghost tv = tracks_view(tracks@);
    let mut total: u64 = 0;
    let mut k: usize = 0;
    proof {
        lemma_placing_start(tv, e@, tracks@);
    }
    while k < e.len()
        invariant
            k <= e.len(),
            tv == tracks_view(old(tracks)@),
            timescales_ok(tv),
            entries_ok(tv, e@),
            total == prefix_len(tv, e@, k as int),
            placing(tv, e@, tracks@, k as int),
        decreases e.len() - k,
    {
        let (ti, ci) = e[k];
        proof {
            lemma_placing_at(tv, e@, tracks@, k as int);
        }
        let c = tracks[ti].chunks[ci];
        if total > 0xFFFF_FFFF_FFFF_FFFF - c.len {
            proof {
                lemma_prefix_mono(tv, e@, k + 1, e@.len() as int);
            }
            return Err(Mp4Error::Overflow);
        }
        let ghost before = tracks@;
        set_chunk(tracks, ti, ci, Chunk { src: c.src, len: c.len, count: c.count, dts: c.dts, rel: total, out: total });
        proof {
            lemma_place_step(tv, e@, before, tracks@, k as int);
        }
        total = total + c.len;
        k = k + 1;
    }
    proof {
        assert forall|i: int| 0 <= i < tracks@.len() implies (#[trigger] tracks@[i]).chunks@.len() <= usize::MAX by {
            assert(tracks@[i].chunks.len() <= usize::MAX);
        }
        assert(tracks@.len() == tracks.len());
        lemma_place_done(tv, e@, tracks@);
        lemma_placing_wf(tv, e@, tracks@, k as int);
    }
    Ok(total)
}

proof fn lemma_rel_bound(tv: Seq<TrackView>, e: Seq<(usize, usize)>, i: int, j: int)
    requires
        entries_ok(tv, e),
        0 <= i < tv.len(),
        0 <= j < tv[i].chunks.len(),
        tv.len() <= usize::MAX,
        tv[i].chunks.len() <= usize::MAX,
    ensures
        0 <= pos_of(e, (i as usize, j as usize)) < e.len(),
        prefix_len(tv, e, e.len() as int) <= u64::MAX ==>
            rel_view(tv, e)[i].chunks[j].rel as nat == prefix_len(tv, e, pos_of(e, (i as usize, j as usize))),
        prefix_len(tv, e, e.len() as int) <= u64::MAX ==> rel_view(tv, e)[i].chunks[j].rel <= prefix_len(tv, e, e.len() as int),
{
    let p = (i as usize, j as usize);
    assert(valid_entry(tv, p));
    let k = pos_of(e, p);
    lemma_prefix_mono(tv, e, k, e.len() as int);
}

/// Sets every chunk's output offset to `start` plus its offset in the media data.
fn set_out(tracks: &mut Vec<Track>, start: u64)
    requires
        forall|i: int, j: int| 0 <= i < old(tracks)@.len() && 0 <= j < old(tracks)@[i].chunks@.len()
            ==> start + (#[trigger] old(tracks)@[i].chunks@[j]).rel <= u64::MAX,
    ensures
        tracks_view(final(tracks)@) == with_out(tracks_view(old(tracks)@), start),
        forall|i: int| 0 <= i < final(tracks)@.len() ==> (#[trigger] final(tracks)@[i]).wf() == old(tracks)@[i].wf()
            && final(tracks)@[i].moov@ == old(tracks)@[i].moov@
            && final(tracks)@[i].samples@ == old(tracks)@[i].samples@
            && final(tracks)@[i].chunks@.len() == old(tracks)@[i].chunks@.len(),
{
    let ghost tv = tracks_view(tracks@);
    let ghost target = with_out(tv, start);
    let ghost n = tracks@.len();
    let mut ti: usize = 0;
    while ti < tracks.len()
        invariant
            ti <= tracks.len(),
            tracks@.len() == n,
            n == old(tracks)@.len(),
            tv == tracks_view(old(tracks)@),
            target == with_out(tv, start),
            forall|i: int, j: int| 0 <= i < n && 0 <= j < old(tracks)@[i].chunks@.len()
                ==> start + (#[trigger] old(tracks)@[i].chunks@[j]).rel <= u64::MAX,
            forall|i: int| 0 <= i < ti ==> (#[trigger] tracks@[i])@ == target[i],
            forall|i: int| ti <= i < n ==> #[trigger] tracks@[i] == old(tracks)@[i],
            forall|i: int| 0 <= i < n ==> (#[trigger] tracks@[i]).wf() == old(tracks)@[i].wf()
                && tracks@[i].moov@ == old(tracks)@[i].moov@
                && tracks@[i].samples@ == old(tracks)@[i].samples@
                && tracks@[i].chunks@.len() == old(tracks)@[i].chunks@.len(),
        decreases tracks.len() - ti,
    {
        let mut ci: usize = 0;
        let ghost t0 = tracks@[ti as int];
        assert(tv[ti as int] == t0@);
        while ci < tracks[ti].chunks.len()
            invariant
                ti < tracks.len(),
                tracks@.len() == n,
                ci <= tracks@[ti as int].chunks.len(),
                tracks@[ti as int].chunks@.len() == t0.chunks@.len(),
                t0 == old(tracks)@[ti as int],
                forall|j: int| 0 <= j < t0.chunks@.len() ==> start + (#[trigger] t0.chunks@[j]).rel <= u64::MAX,
                tracks@[ti as int]@ == with_chunks(t0@, tracks@[ti as int].chunks@),
                tracks@[ti as int].wf() == t0.wf(),
                forall|j: int| 0 <= j < ci ==> #[trigger] tracks@[ti as int].chunks@[j]
                    == placed(t0.chunks@[j], t0.chunks@[j].rel, (start + t0.chunks@[j].rel) as u64),
                forall|j: int| ci <= j < t0.chunks@.len() ==> #[trigger] tracks@[ti as int].chunks@[j] == t0.chunks@[j],
                forall|i: int| 0 <= i < n && i != ti ==> #[trigger] tracks@[i] == old(tracks)@[i] || i < ti,
                forall|i: int| 0 <= i < ti ==> (#[trigger] tracks@[i])@ == target[i],
                forall|i: int| ti < i < n ==> #[trigger] tracks@[i] == old(tracks)@[i],
                forall|i: int| 0 <= i < n && i != ti ==> (#[trigger] tracks@[i]).wf() == old(tracks)@[i].wf()
                    && tracks@[i].moov@ == old(tracks)@[i].moov@
                    && tracks@[i].samples@ == old(tracks)@[i].samples@
                    && tracks@[i].chunks@.len() == old(tracks)@[i].chunks@.len(),
            decreases t0.chunks@.len() - ci,
        {
            let c = tracks[ti].chunks[ci];
            let ghost before = tracks@;
            set_chunk(tracks, ti, ci, Chunk { src: c.src, len: c.len, count: c.count, dts: c.dts, rel: c.rel, out: start + c.rel });
            proof {
                assert forall|i: int| 0 <= i < n && i != ti implies #[trigger] tracks@[i] == before[i] by {}
            }
            ci = ci + 1;
        }
        proof {
            assert(tracks@[ti as int].chunks@ =~= target[ti as int].chunks);
        }
        ti = ti + 1;
    }
    proof {
        assert(tracks_view(tracks@) =~= target);
    }
}

// ---------- the output layout ----------

/// Setting the output offsets twice keeps only the second start.
proof fn lemma_with_out_twice(rv: Seq<TrackView>, a: u64, b: u64)
    ensures
        with_out(with_out(rv, a), b) == with_out(rv, b),
{
    let w = with_out(with_out(rv, a), b);
    let v = with_out(rv, b);
    assert forall|i: int| 0 <= i < rv.len() implies #[trigger] w[i] == v[i] by {
        assert(w[i].chunks =~= v[i].chunks);
    }
    assert(w =~= v);
}

/// The `moov` with chunk offsets from `start`; when offsets fit in 32 bits only as long as the
/// whole file does, and the size of the `moov` itself moves the data: tried over three
/// rounds, switching to 64-bit offsets when needed. Gives the `moov`, where the media data
/// starts and whether offsets take 64 bits.
pub open spec fn fit_spec(rv: Seq<TrackView>, ftyp_len: nat, head: nat, total: nat, movie_ts: u32,
    tags: Option<Tags>, round: nat, use64: bool) -> Result<(Seq<u8>, u64, bool), Mp4Error>
    decreases 3 - round,
{
    if round >= 3 {
        Err(Mp4Error::NoLayout)
    } else {
        match moov_spec(with_out(rv, 0), movie_ts, use64, tags) {
            Err(x) => Err(x),
            Ok(m0) => {
                let start = ftyp_len + m0.len() + head;
                if !use64 && start + total > 0xffff_ffff {
                    fit_spec(rv, ftyp_len, head, total, movie_ts, tags, round + 1, true)
                } else if start + total > u64::MAX {
                    Err(Mp4Error::Overflow)
                } else {
                    match moov_spec(with_out(rv, start as u64), movie_ts, use64, tags) {
                        Err(x) => Err(x),
                        Ok(m) => if m.len() == m0.len() {
                            Ok((m, start as u64, use64))
                        } else {
                            fit_spec(rv, ftyp_len, head, total, movie_ts, tags, round + 1, use64)
                        },
                    }
                }
            },
        }
    }
}

pub open spec fn fit_pre(tracks: Seq<Track>, rv: Seq<TrackView>, total: u64) -> bool {
    &&& tracks_ok(tracks)
    &&& tracks_view(tracks) == rv
    &&& forall|i: int, j: int| 0 <= i < tracks.len() && 0 <= j < tracks[i].chunks@.len()
        ==> (#[trigger] tracks[i].chunks@[j]).rel <= total
}

proof fn lemma_fit_pre_kept(before: Seq<Track>, after: Seq<Track>, rv: Seq<TrackView>, total: u64, s0: u64, start: u64)
    requires
        fit_pre(before, with_out(rv, s0), total),
        tracks_view(after) == with_out(tracks_view(before), start),
        forall|i: int| 0 <= i < after.len() ==> (#[trigger] after[i]).wf() == before[i].wf()
            && after[i].moov@ == before[i].moov@
            && after[i].samples@ == before[i].samples@
            && after[i].chunks@.len() == before[i].chunks@.len(),
    ensures
        tracks_view(after) == with_out(rv, start),
        tracks_ok(after),
        fit_pre(after, with_out(rv, start), total),
{
    lemma_with_out_twice(rv, s0, start);
    assert(after.len() == tracks_view(after).len());
    assert forall|i: int| 0 <= i < after.len() implies (#[trigger] after[i]).wf()
        && crate::media::mp4::tables::tables_fit(after[i]@) by {
        assert(tracks_view(after)[i] == after[i]@);
        assert(tracks_view(before)[i] == before[i]@);
    }
    assert forall|i: int, j: int| 0 <= i < after.len() && 0 <= j < after[i].chunks@.len()
        implies (#[trigger] after[i].chunks@[j]).rel <= total by {
        assert(tracks_view(after)[i] == after[i]@);
        assert(tracks_view(before)[i] == before[i]@);
        assert(after[i].chunks@[j] == tracks_view(after)[i].chunks[j]);
        assert(before[i].chunks@[j].rel <= total);
    }
}

fn fit(tracks: &mut Vec<Track>, Ghost(rv): Ghost<Seq<TrackView>>, ftyp_len: usize, head: u64, total: u64,
    movie_ts: u32, tags: Option<&Tags>) -> (r: Result<(Vec<u8>, u64, bool), Mp4Error>)
    requires
        fit_pre(old(tracks)@, with_out(rv, 0), total),
        tags_ok(tags),
        head <= 16,
    ensures
        match fit_spec(rv, ftyp_len as nat, head as nat, total as nat, movie_ts, opt_tags(tags), 0, false) {
            Ok((m, start, use64)) => r matches Ok((rm, rs, ru)) && rm@ == m && rs == start && ru == use64
                && tracks_view(final(tracks)@) == with_out(rv, start),
            Err(x) => r == Err::<(Vec<u8>, u64, bool), Mp4Error>(x),
        },
{
    let mut use64 = false;
    let mut round: usize = 0;
    let ghost mut cur: u64 = 0;
    while round < 3
        invariant
            round <= 3,
            fit_pre(tracks@, with_out(rv, cur), total),
            tags_ok(tags),
            head <= 16,
            fit_spec(rv, ftyp_len as nat, head as nat, total as nat, movie_ts, opt_tags(tags), 0, false)
                == fit_spec(rv, ftyp_len as nat, head as nat, total as nat, movie_ts, opt_tags(tags), round as nat, use64),
        decreases 3 - round,
    {
        let ghost before = tracks@;
        set_out(tracks, 0);
        proof {
            lemma_fit_pre_kept(before, tracks@, rv, total, cur, 0);
            cur = 0;
        }
        let m0 = build_moov(tracks, movie_ts, use64, tags)?;
        let size = m0.len();
        let start128 = ftyp_len as u128 + size as u128 + head as u128;
        if !use64 && start128 + total as u128 > 0xffff_ffff {
            use64 = true;
            round = round + 1;
            continue;
        }
        if start128 + total as u128 > 0xFFFF_FFFF_FFFF_FFFF {
            return Err(Mp4Error::Overflow);
        }
        let start = start128 as u64;
        let ghost before2 = tracks@;
        set_out(tracks, start);
        proof {
            lemma_fit_pre_kept(before2, tracks@, rv, total, 0, start);
            cur = start;
        }
        let m = build_moov(tracks, movie_ts, use64, tags)?;
        if m.len() == size {
            return Ok((m, start, use64));
        }
        round = round + 1;
    }
    Err(Mp4Error::NoLayout)
}

pub open spec fn isom() -> Seq<u8> { seq![0x69u8, 0x73, 0x6f, 0x6d] }
pub open spec fn avc1() -> Seq<u8> { seq![0x61u8, 0x76, 0x63, 0x31] }
pub open spec fn av01() -> Seq<u8> { seq![0x61u8, 0x76, 0x30, 0x31] }
pub open spec fn mdat4() -> Seq<u8> { seq![0x6du8, 0x64, 0x61, 0x74] }

/// The sample formats of video tracks (`avc1`, `av01`), as extra brands, in track order.
pub open spec fn extra_brands(tv: Seq<TrackView>) -> Seq<u8>
    decreases tv.len(),
{
    if tv.len() == 0 {
        Seq::empty()
    } else {
        extra_brands(tv.drop_last())
            + if tv.last().fourcc == avc1() || tv.last().fourcc == av01() { tv.last().fourcc } else { Seq::empty() }
    }
}

/// `ftyp`: major brand `isom`, version 512, compatible `isom`, `iso2`, `mp41` and the video formats.
pub open spec fn ftyp_spec(tv: Seq<TrackView>) -> Seq<u8> {
    box_spec(seq![0x66u8, 0x74, 0x79, 0x70], isom() + be32(512) + isom() + seq![0x69u8, 0x73, 0x6f, 0x32]
        + seq![0x6du8, 0x70, 0x34, 0x31] + extra_brands(tv))
}

/// The header of the media data box: 64-bit size when it does not fit in 32 bits.
pub open spec fn mdat_spec(total: nat) -> Seq<u8> {
    if total + 8 > 0xffff_ffff {
        be32(1) + mdat4() + be64(total + 16)
    } else {
        be32(total + 8) + mdat4()
    }
}

/// The movie timescale: in the first track's `mvhd`, after 64-bit times in version 1.
pub open spec fn movie_ts_spec(m: Seq<u8>) -> Result<u32, Mp4Error> {
    match find_spec(m, 8, m.len() as int, mvhd4()) {
        Err(x) => Err(x),
        Ok(mv) => {
            let b = body_of(mv);
            if b + 1 > m.len() {
                Err(Mp4Error::OutOfRange)
            } else {
                let off = b + if m[b] == 1 { 20int } else { 12 };
                if off + 4 > m.len() { Err(Mp4Error::OutOfRange) } else { Ok(u32_spec(m, off)) }
            }
        },
    }
}

fn ftyp_box(tracks: &Vec<Track>) -> (out: Vec<u8>)
    requires
        tracks_ok(tracks@),
    ensures
        out@ == ftyp_spec(tracks_view(tracks@)),
{
    let ghost tv = tracks_view(tracks@);
    let mut brands: Vec<u8> = Vec::new();
    let isom_b: [u8; 4] = [0x69, 0x73, 0x6f, 0x6d];
    crate::media::bytes::extend(&mut brands, &isom_b);
    crate::media::bytes::extend(&mut brands, &[0x69, 0x73, 0x6f, 0x32]);
    crate::media::bytes::extend(&mut brands, &[0x6d, 0x70, 0x34, 0x31]);
    let ghost base = brands@;
    let mut i: usize = 0;
    proof {
        assert(tv.subrange(0, 0) =~= Seq::<TrackView>::empty());
        assert(base + extra_brands(tv.subrange(0, 0)) =~= base);
    }
    while i < tracks.len()
        invariant
            i <= tracks.len(),
            tv == tracks_view(tracks@),
            tracks.len() < u32::MAX,
            4 * tracks.len() + 64 <= usize::MAX,
            brands@ == base + extra_brands(tv.subrange(0, i as int)),
            brands@.len() <= 12 + 4 * i,
        decreases tracks.len() - i,
    {
        assert(tv.subrange(0, i + 1).drop_last() =~= tv.subrange(0, i as int));
        assert(tv[i as int] == tracks@[i as int]@);
        let f = tracks[i].fourcc;
        let video = crate::media::mp4::boxes::same_typ(&f, &[0x61, 0x76, 0x63, 0x31]) || crate::media::mp4::boxes::same_typ(&f, &[0x61, 0x76, 0x30, 0x31]);
        let ghost prev = brands@;
        if video {
            crate::media::bytes::extend(&mut brands, &f);
            assert(prev + f@ =~= base + extra_brands(tv.subrange(0, i + 1)));
        } else {
            assert(prev + Seq::<u8>::empty() =~= prev);
        }
        i = i + 1;
    }
    assert(tv.subrange(0, i as int) =~= tv);
    let mut parts: Vec<Vec<u8>> = Vec::new();
    proof {
        assert(flatten(views(parts@)) =~= Seq::<u8>::empty());
    }
    let mut major: Vec<u8> = Vec::new();
    crate::media::bytes::extend(&mut major, &isom_b);
    push_part(&mut parts, major);
    let ver = w32(&[512u32]);
    proof {
        crate::media::mp4::boxes::lemma_w32_reads_back_len([512u32]@);
    }
    push_part(&mut parts, ver);
    let ghost bv = brands@;
    push_part(&mut parts, brands);
    proof {
        reveal_with_fuel(crate::media::mp4::boxes::w32_spec, 2);
        assert([512u32]@ =~= seq![512u32]);
        assert(Seq::<u8>::empty() + isom() =~= isom());
    }
    let out = bx(&[0x66, 0x74, 0x79, 0x70], parts);
    proof {
        assert([0x66u8, 0x74, 0x79, 0x70]@ =~= seq![0x66u8, 0x74, 0x79, 0x70]);
        assert(flatten(views(parts@)) =~= isom() + be32(512) + isom() + seq![0x69u8, 0x73, 0x6f, 0x32]
            + seq![0x6du8, 0x70, 0x34, 0x31] + extra_brands(tv));
    }
    out
}

fn movie_timescale(m: &Vec<u8>) -> (r: Result<u32, Mp4Error>)
    requires
        m.len() + 64 <= usize::MAX,
    ensures
        r == movie_ts_spec(m@),
{
    let top = top_of(m.as_slice());
    let mv = find(m.as_slice(), &top, &[0x6d, 0x76, 0x68, 0x64])?;
    proof {
        crate::media::mp4::track::lemma_find_inside_pub(m@, 8, m.len() as int, mvhd4());
    }
    let v = u8_at(m.as_slice(), mv.body)?;
    let off = mv.body + if v == 1 { 20 } else { 12 };
    u32_at(m.as_slice(), off)
}

fn mdat_head(total: u64) -> (h: Vec<u8>)
    requires
        total + 16 <= u64::MAX,
    ensures
        h@ == mdat_spec(total as nat),
        h@.len() == if total + 8 > 0xffff_ffff { 16int } else { 8 },
{
    let mut h: Vec<u8> = Vec::new();
    if total + 8 > 0xffff_ffff {
        push_be32(&mut h, 1);
        crate::media::bytes::extend(&mut h, &[0x6d, 0x64, 0x61, 0x74]);
        push_be64(&mut h, total + 16);
    } else {
        push_be32(&mut h, (total + 8) as u32);
        crate::media::bytes::extend(&mut h, &[0x6d, 0x64, 0x61, 0x74]);
    }
    h
}

/// Where everything goes in the output file: `ftyp`, `moov` and the media data header, then
/// the chunks in `entries` order (`total` bytes) starting at `data_start`.
pub struct MuxLayout {
    pub ftyp: Vec<u8>,
    pub moov: Vec<u8>,
    pub mdat_head: Vec<u8>,
    pub entries: Vec<(usize, usize)>,
    pub total: u64,
    pub data_start: u64,
}

/// The output of interleaving tracks whose chunks go in order `e`: `ftyp`, `moov`, media data
/// header, where the media data starts, and whether offsets take 64 bits.
pub open spec fn mux_spec(tv: Seq<TrackView>, e: Seq<(usize, usize)>, tags: Option<Tags>)
    -> Result<(Seq<u8>, Seq<u8>, Seq<u8>, u64, bool), Mp4Error> {
    let total = prefix_len(tv, e, e.len() as int);
    if total > u64::MAX {
        Err(Mp4Error::Overflow)
    } else {
        match movie_ts_spec(tv[0].moov) {
            Err(x) => Err(x),
            Ok(mts) => {
                let f = ftyp_spec(tv);
                let head: nat = if total + 8 > 0xffff_ffff { 16 } else { 8 };
                match fit_spec(rel_view(tv, e), f.len(), head, total, mts, tags, 0, false) {
                    Err(x) => Err(x),
                    Ok((m, start, use64)) => Ok((f, m, mdat_spec(total), start, use64)),
                }
            },
        }
    }
}

/// The media data starts right after the `ftyp`, the `moov` and the media data header.
proof fn lemma_fit_start(rv: Seq<TrackView>, ftyp_len: nat, head: nat, total: nat, movie_ts: u32,
    tags: Option<Tags>, round: nat, use64: bool)
    ensures
        fit_spec(rv, ftyp_len, head, total, movie_ts, tags, round, use64) matches Ok((m, start, _))
            ==> start == ftyp_len + m.len() + head && start + total <= u64::MAX,
    decreases 3 - round,
{
    if round < 3 {
        lemma_fit_start(rv, ftyp_len, head, total, movie_ts, tags, round + 1, true);
        lemma_fit_start(rv, ftyp_len, head, total, movie_ts, tags, round + 1, use64);
    }
}

proof fn lemma_ftyp_len(tv: Seq<TrackView>)
    ensures
        ftyp_spec(tv).len() >= 28,
{
    crate::media::mp4::boxes::lemma_box_len(seq![0x66u8, 0x74, 0x79, 0x70], isom() + be32(512) + isom()
        + seq![0x69u8, 0x73, 0x6f, 0x32] + seq![0x6du8, 0x70, 0x34, 0x31] + extra_brands(tv));
}

/// Every chunk's output offset is where the media data starts plus the bytes of the chunks
/// before it in the order.
pub proof fn lemma_chunk_out(tv: Seq<TrackView>, e: Seq<(usize, usize)>, start: u64, k: int)
    requires
        timescales_ok(tv),
        entries_ok(tv, e),
        0 <= k < e.len(),
        tv.len() <= usize::MAX,
        forall|i: int| 0 <= i < tv.len() ==> #[trigger] tv[i].chunks.len() <= usize::MAX,
        start + prefix_len(tv, e, e.len() as int) <= u64::MAX,
    ensures
        chunk_of(with_out(rel_view(tv, e), start), e[k]).out == start + prefix_len(tv, e, k),
        chunk_of(with_out(rel_view(tv, e), start), e[k]).len == chunk_of(tv, e[k]).len,
        chunk_of(with_out(rel_view(tv, e), start), e[k]).src == chunk_of(tv, e[k]).src,
{
    let p = e[k];
    assert(valid_entry(tv, p));
    lemma_rel_bound(tv, e, p.0 as int, p.1 as int);
    let kp = pos_of(e, (p.0 as usize, p.1 as usize));
    if kp != k {
        lemma_entries_unique(tv, e, kp, k);
    }
    lemma_prefix_mono(tv, e, k, e.len() as int);
}

/// Lays out the output of interleaving the tracks: their chunks in time order, each one's
/// offset, the `ftyp`, the `moov` that points at them and the media data header. The tracks
/// come back with every chunk's output offset set.
pub fn mux_layout(tracks: &mut Vec<Track>, tags: Option<&Tags>) -> (r: Result<MuxLayout, Mp4Error>)
    requires
        tracks_ok(old(tracks)@),
        tags_ok(tags),
    ensures
        match r {
            Ok(l) => {
                &&& entries_ok(tracks_view(old(tracks)@), l.entries@)
                &&& l.total == prefix_len(tracks_view(old(tracks)@), l.entries@, l.entries@.len() as int)
                &&& mux_spec(tracks_view(old(tracks)@), l.entries@, opt_tags(tags)) matches Ok((f, m, h, st, _))
                    && l.ftyp@ == f && l.moov@ == m && l.mdat_head@ == h && l.data_start == st
                &&& tracks_view(final(tracks)@) == with_out(rel_view(tracks_view(old(tracks)@), l.entries@), l.data_start)
                &&& l.data_start == l.ftyp@.len() + l.moov@.len() + l.mdat_head@.len()
                &&& forall|k: int| 0 <= k < l.entries@.len() ==>
                    #[trigger] chunk_of(tracks_view(final(tracks)@), l.entries@[k]).out
                        == l.data_start + prefix_len(tracks_view(old(tracks)@), l.entries@, k)
            },
            Err(x) => (exists|e: Seq<(usize, usize)>| entries_ok(tracks_view(old(tracks)@), e))
                && forall|e: Seq<(usize, usize)>| entries_ok(tracks_view(old(tracks)@), e)
                    ==> mux_spec(tracks_view(old(tracks)@), e, opt_tags(tags)) == Err::<(Seq<u8>, Seq<u8>, Seq<u8>, u64, bool), Mp4Error>(x),
        },
{
    let ghost tv = tracks_view(old(tracks)@);
    let r = layout_tracks(tracks, tags);
    proof {
        if r is Err {
            lemma_timescales(old(tracks)@);
            let e = choose|e: Seq<(usize, usize)>| entries_ok(tv, e)
                && mux_spec(tv, e, opt_tags(tags)) == Err::<(Seq<u8>, Seq<u8>, Seq<u8>, u64, bool), Mp4Error>(r->Err_0);
            assert forall|e2: Seq<(usize, usize)>| entries_ok(tv, e2) implies
                mux_spec(tv, e2, opt_tags(tags)) == Err::<(Seq<u8>, Seq<u8>, Seq<u8>, u64, bool), Mp4Error>(r->Err_0) by {
                lemma_entries_determined(tv, e, e2);
            }
        }
    }
    r
}

/// Well-formed tracks have a positive timescale.
proof fn lemma_timescales(v: Seq<Track>)
    requires
        tracks_ok(v),
    ensures
        timescales_ok(tracks_view(v)),
{
    let tv = tracks_view(v);
    assert forall|i: int| 0 <= i < tv.len() implies #[trigger] tv[i].timescale > 0 by {
        assert(v[i].wf());
        assert(tv[i] == v[i]@);
    }
}

fn layout_tracks(tracks: &mut Vec<Track>, tags: Option<&Tags>) -> (r: Result<MuxLayout, Mp4Error>)
    requires
        tracks_ok(old(tracks)@),
        tags_ok(tags),
    ensures
        match r {
            Ok(l) => {
                &&& entries_ok(tracks_view(old(tracks)@), l.entries@)
                &&& l.total == prefix_len(tracks_view(old(tracks)@), l.entries@, l.entries@.len() as int)
                &&& mux_spec(tracks_view(old(tracks)@), l.entries@, opt_tags(tags)) matches Ok((f, m, h, st, _))
                    && l.ftyp@ == f && l.moov@ == m && l.mdat_head@ == h && l.data_start == st
                &&& tracks_view(final(tracks)@) == with_out(rel_view(tracks_view(old(tracks)@), l.entries@), l.data_start)
                &&& l.data_start == l.ftyp@.len() + l.moov@.len() + l.mdat_head@.len()
                &&& forall|k: int| 0 <= k < l.entries@.len() ==>
                    #[trigger] chunk_of(tracks_view(final(tracks)@), l.entries@[k]).out
                        == l.data_start + prefix_len(tracks_view(old(tracks)@), l.entries@, k)
            },
            Err(x) => exists|e: Seq<(usize, usize)>| entries_ok(tracks_view(old(tracks)@), e)
                && mux_spec(tracks_view(old(tracks)@), e, opt_tags(tags)) == Err::<(Seq<u8>, Seq<u8>, Seq<u8>, u64, bool), Mp4Error>(x),
        },
{
    let ghost tv = tracks_view(tracks@);
    proof {
        assert forall|i: int| 0 <= i < tv.len() implies #[trigger] tv[i].timescale > 0 by {
            assert(tracks@[i].wf());
        }
        assert forall|i: int| 0 <= i < tracks@.len() implies (#[trigger] tracks@[i]).wf() by {}
    }
    let entries = order_entries(tracks);
    let ghost e = entries@;
    let total = match place_chunks(tracks, &entries) {
        Ok(t) => t,
        Err(x) => {
            return Err(x);
        }
    };
    let ghost rv = rel_view(tv, e);
    proof {
        assert forall|i: int| 0 <= i < tracks@.len() implies (#[trigger] tracks@[i]).wf()
            && crate::media::mp4::tables::tables_fit(tracks@[i]@) by {
            assert(tracks_view(tracks@)[i] == tracks@[i]@);
            assert(tv[i] == old(tracks)@[i]@);
            assert(old(tracks)@[i].wf() && crate::media::mp4::tables::tables_fit(old(tracks)@[i]@));
        }
        assert forall|i: int, j: int| 0 <= i < tracks@.len() && 0 <= j < tracks@[i].chunks@.len()
            implies (#[trigger] tracks@[i].chunks@[j]).rel <= total by {
            assert(tracks_view(tracks@)[i] == tracks@[i]@);
            assert(tv[i].chunks.len() <= usize::MAX) by {
                assert(tv[i] == old(tracks)@[i]@);
            }
            lemma_rel_bound(tv, e, i, j);
        }
        lemma_with_out_twice(rv, 0, 0);
        assert forall|i: int| 0 <= i < rv.len() implies #[trigger] with_out(rv, 0)[i] == rv[i] by {
            assert(with_out(rv, 0)[i].chunks =~= rv[i].chunks);
        }
        assert(with_out(rv, 0) =~= rv);
    }
    let ftyp = ftyp_box(tracks);
    proof {
        assert(tracks_view(tracks@) == rv);
        assert forall|i: int| 0 <= i < tv.len() implies #[trigger] rv[i].fourcc == tv[i].fourcc by {}
        lemma_extra_brands_same(rv, tv);
    }
    let movie_ts = movie_timescale(&tracks[0].moov)?;
    proof {
        assert(tracks_view(tracks@)[0] == tracks@[0]@);
        assert(rv[0].moov == tv[0].moov);
    }
    let head: u64 = if total > 0xffff_ffff - 8 { 16 } else { 8 };
    let (moov, data_start, _use64) = fit(tracks, Ghost(rv), ftyp.len(), head, total, movie_ts, tags)?;
    proof {
        lemma_fit_start(rv, ftyp@.len(), head as nat, total as nat, movie_ts, opt_tags(tags), 0, false);
        lemma_ftyp_len(tv);
    }
    let mdat = mdat_head(total);
    proof {
        assert forall|k: int| 0 <= k < e.len() implies
            #[trigger] chunk_of(tracks_view(tracks@), e[k]).out == data_start + prefix_len(tv, e, k) by {
            assert forall|i: int| 0 <= i < tv.len() implies #[trigger] tv[i].chunks.len() <= usize::MAX by {
                assert(tv[i] == old(tracks)@[i]@);
            }
            lemma_chunk_out(tv, e, data_start, k);
        }
    }
    Ok(MuxLayout { ftyp, moov, mdat_head: mdat, entries, total, data_start })
}

proof fn lemma_extra_brands_same(a: Seq<TrackView>, b: Seq<TrackView>)
    requires
        a.len() == b.len(),
        forall|i: int| 0 <= i < a.len() ==> #[trigger] a[i].fourcc == b[i].fourcc,
    ensures
        extra_brands(a) == extra_brands(b),
    decreases a.len(),
{
    if a.len() > 0 {
        lemma_extra_brands_same(a.drop_last(), b.drop_last());
    }
}

// ---------- from inputs to layout ----------

/// One input of the muxer: a fragmented file's `moov`, its `moof`s with where each starts,
/// and the file's length.
pub struct MuxInput {
    pub moov: Vec<u8>,
    pub moofs: Vec<(u64, Vec<u8>)>,
    pub size: u64,
}

/// An input's boxes are small enough to be read (a machine limit).
pub open spec fn input_ok(m: MuxInput) -> bool {
    &&& m.moov.len() + 64 <= usize::MAX
    &&& forall|j: int| 0 <= j < m.moofs.len() ==> (#[trigger] m.moofs@[j]).1.len() + 64 <= usize::MAX
}

/// The inputs' boxes are small enough to be read (a machine limit).
pub open spec fn inputs_fit(inputs: Seq<MuxInput>) -> bool {
    forall|i: int| 0 <= i < inputs.len() ==> {
        &&& (#[trigger] inputs[i]).moov.len() + 64 <= usize::MAX
        &&& forall|j: int| 0 <= j < inputs[i].moofs.len() ==> (#[trigger] inputs[i].moofs@[j]).1.len() + 64 <= usize::MAX
    }
}

/// The tracks of the inputs, in order, or the first input's error.
pub open spec fn read_all(inputs: Seq<MuxInput>) -> Result<Seq<TrackView>, Mp4Error>
    decreases inputs.len(),
{
    if inputs.len() == 0 {
        Ok(Seq::empty())
    } else {
        match read_all(inputs.drop_last()) {
            Err(e) => Err(e),
            Ok(v) => match track_spec(inputs.last().moov@, moofs_view(inputs.last().moofs@), inputs.last().size) {
                Ok(t) => Ok(v.push(t)),
                Err(e) => Err(e),
            },
        }
    }
}

/// The tracks and the tags are small enough for the output's tables (a machine limit).
pub open spec fn output_fits(tv: Seq<TrackView>, tags: Option<&Tags>) -> bool {
    &&& tv.len() < u32::MAX
    &&& 4 * tv.len() + 64 <= usize::MAX
    &&& forall|i: int| 0 <= i < tv.len() ==> tables_fit(#[trigger] tv[i])
    &&& tags_ok(tags)
}

pub fn input_fits(m: &MuxInput) -> (r: bool)
    ensures
        r == input_ok(*m),
{
    if m.moov.len() > usize::MAX - 64 {
        return false;
    }
    let mut j: usize = 0;
    while j < m.moofs.len()
        invariant
            j <= m.moofs.len(),
            forall|k: int| 0 <= k < j ==> (#[trigger] m.moofs@[k]).1.len() + 64 <= usize::MAX,
        decreases m.moofs.len() - j,
    {
        if m.moofs[j].1.len() > usize::MAX - 64 {
            return false;
        }
        j = j + 1;
    }
    true
}

fn track_fits(t: &Track) -> (r: bool)
    ensures
        r == tables_fit(t@),
{
    let ns = t.samples.len() as u128;
    let nc = t.chunks.len() as u128;
    let nm = t.moov.len() as u128;
    ns <= 0xffff_ffff && nc <= 0xffff_ffff && nm + 32 * ns + 32 * nc + 1024 <= usize::MAX as u128
}

fn tags_fit(tags: Option<&Tags>) -> (r: bool)
    ensures
        r == tags_ok(tags),
{
    match tags {
        None => true,
        Some(t) => {
            let mut n: u128 = t.title.as_str().as_bytes().len() as u128;
            n = n + t.artist.as_str().as_bytes().len() as u128;
            match &t.album {
                Some(a) => {
                    n = n + a.as_str().as_bytes().len() as u128;
                },
                None => {},
            }
            match &t.year {
                Some(y) => {
                    n = n + y.as_str().as_bytes().len() as u128;
                },
                None => {},
            }
            match &t.cover {
                Some(c) => {
                    n = n + c.len() as u128;
                },
                None => {},
            }
            n + 512 <= usize::MAX as u128
        },
    }
}

fn all_inputs_fit(inputs: &Vec<MuxInput>) -> (r: bool)
    ensures
        r == inputs_fit(inputs@),
{
    let mut i: usize = 0;
    while i < inputs.len()
        invariant
            i <= inputs.len(),
            forall|k: int| 0 <= k < i ==> {
                &&& (#[trigger] inputs@[k]).moov.len() + 64 <= usize::MAX
                &&& forall|j: int| 0 <= j < inputs@[k].moofs.len() ==> (#[trigger] inputs@[k].moofs@[j]).1.len() + 64 <= usize::MAX
            },
        decreases inputs.len() - i,
    {
        if !input_fits(&inputs[i]) {
            return false;
        }
        i = i + 1;
    }
    true
}

fn read_inputs(inputs: &Vec<MuxInput>) -> (r: Result<Vec<Track>, Mp4Error>)
    requires
        inputs_fit(inputs@),
    ensures
        match read_all(inputs@) {
            Ok(tv) => r matches Ok(ts) && tracks_view(ts@) == tv && forall|k: int| 0 <= k < ts@.len() ==> (#[trigger] ts@[k]).wf(),
            Err(e) => r == Err::<Vec<Track>, Mp4Error>(e),
        },
{
    let mut tracks: Vec<Track> = Vec::new();
    let mut i: usize = 0;
    assert(inputs@.take(0) =~= Seq::<MuxInput>::empty());
    assert(tracks_view(tracks@) =~= Seq::<TrackView>::empty());
    while i < inputs.len()
        invariant
            i <= inputs.len(),
            inputs_fit(inputs@),
            read_all(inputs@.take(i as int)) == Ok::<Seq<TrackView>, Mp4Error>(tracks_view(tracks@)),
            forall|k: int| 0 <= k < tracks@.len() ==> (#[trigger] tracks@[k]).wf(),
        decreases inputs.len() - i,
    {
        assert(inputs@.take(i as int + 1).drop_last() =~= inputs@.take(i as int));
        assert(inputs@.take(i as int + 1).last() == inputs@[i as int]);
        let m = &inputs[i];
        let moov = m.moov.clone();
        assert(moov@ =~= m.moov@);
        match read_track(moov, &m.moofs, m.size) {
            Ok(t) => {
                let ghost before = tracks_view(tracks@);
                tracks.push(t);
                assert(tracks_view(tracks@) =~= before.push(t@));
            },
            Err(e) => {
                proof {
                    lemma_read_all_err(inputs@, i as int + 1);
                }
                return Err(e);
            },
        }
        i = i + 1;
    }
    assert(inputs@.take(i as int) =~= inputs@);
    Ok(tracks)
}

fn all_tables_fit(tracks: &Vec<Track>) -> (r: bool)
    ensures
        r == forall|j: int| 0 <= j < tracks@.len() ==> tables_fit(#[trigger] tracks_view(tracks@)[j]),
{
    let mut k: usize = 0;
    while k < tracks.len()
        invariant
            k <= tracks.len(),
            forall|j: int| 0 <= j < k ==> tables_fit(#[trigger] tracks_view(tracks@)[j]),
        decreases tracks.len() - k,
    {
        assert(tracks_view(tracks@)[k as int] == tracks@[k as int]@);
        if !track_fits(&tracks[k]) {
            return false;
        }
        k = k + 1;
    }
    true
}

/// Reads every input's track and lays out their interleaving (see `mux_layout`); inputs or
/// outputs too large for this machine give `Overflow`.
pub fn mux_inputs(inputs: &Vec<MuxInput>, tags: Option<&Tags>) -> (r: Result<(Vec<Track>, MuxLayout), Mp4Error>)
    requires
        inputs@.len() >= 1,
    ensures
        !inputs_fit(inputs@) ==> r == Err::<(Vec<Track>, MuxLayout), Mp4Error>(Mp4Error::Overflow),
        inputs_fit(inputs@) ==> match read_all(inputs@) {
            Err(e) => r == Err::<(Vec<Track>, MuxLayout), Mp4Error>(e),
            Ok(tv) => if !output_fits(tv, tags) {
                r == Err::<(Vec<Track>, MuxLayout), Mp4Error>(Mp4Error::Overflow)
            } else {
                match r {
                    Ok((tracks, l)) => {
                        &&& entries_ok(tv, l.entries@)
                        &&& l.total == prefix_len(tv, l.entries@, l.entries@.len() as int)
                        &&& mux_spec(tv, l.entries@, opt_tags(tags)) matches Ok((f, m, h, st, _))
                            && l.ftyp@ == f && l.moov@ == m && l.mdat_head@ == h && l.data_start == st
                        &&& tracks_view(tracks@) == with_out(rel_view(tv, l.entries@), l.data_start)
                        &&& l.data_start == l.ftyp@.len() + l.moov@.len() + l.mdat_head@.len()
                        &&& forall|k: int| 0 <= k < l.entries@.len() ==>
                            #[trigger] chunk_of(tracks_view(tracks@), l.entries@[k]).out
                                == l.data_start + prefix_len(tv, l.entries@, k)
                    },
                    Err(x) => (exists|e: Seq<(usize, usize)>| entries_ok(tv, e))
                        && forall|e: Seq<(usize, usize)>| entries_ok(tv, e)
                            ==> mux_spec(tv, e, opt_tags(tags)) == Err::<(Seq<u8>, Seq<u8>, Seq<u8>, u64, bool), Mp4Error>(x),
                }
            },
        },
{
    if !all_inputs_fit(inputs) {
        return Err(Mp4Error::Overflow);
    }
    let mut tracks = read_inputs(inputs)?;
    let n = tracks.len();
    if n >= 0xffff_ffff || n > (usize::MAX - 64) / 4 || !all_tables_fit(&tracks) || !tags_fit(tags) {
        return Err(Mp4Error::Overflow);
    }
    assert(tracks_ok(tracks@)) by {
        assert forall|j: int| 0 <= j < tracks@.len() implies (#[trigger] tracks@[j]).wf() && tables_fit(tracks@[j]@) by {
            assert(tracks_view(tracks@)[j] == tracks@[j]@);
        }
    }
    match mux_layout(&mut tracks, tags) {
        Ok(l) => Ok((tracks, l)),
        Err(x) => Err(x),
    }
}

proof fn lemma_read_all_err(inputs: Seq<MuxInput>, k: int)
    requires
        0 <= k <= inputs.len(),
        read_all(inputs.take(k)) is Err,
    ensures
        read_all(inputs) == read_all(inputs.take(k)),
    decreases inputs.len() - k,
{
    if k < inputs.len() {
        assert(inputs.take(k + 1).drop_last() =~= inputs.take(k));
        lemma_read_all_err(inputs, k + 1);
    } else {
        assert(inputs.take(k) =~= inputs);
    }
}

} // verus!
