//! One track of a fragmented MP4 (moov + moof/mdat, as YouTube serves them).

use vstd::prelude::*;
use crate::media::mp4::boxes::{
    Mp4Error, BoxNode, Span, u32_spec, u64_spec, u32_in, u64_at, u32_at, u8_at, flags_at, rd,
    children, children_spec, find, find_spec, first_of, spans, top_of, same_typ, first_index,
};

verus! {

/// An hour of 60 fps video is ~216,000 samples; this only cuts absurd values.
pub const MAX_SAMPLES_PER_RUN: u32 = 0x100_0000;

/// One sample: duration, size, composition offset and whether it is a sync sample.
#[derive(Clone, Copy, Debug, PartialEq, Eq)]
pub struct Sample {
    pub dur: u32,
    pub size: u32,
    pub cto: i32,
    pub sync: bool,
}

/// A run of consecutive samples in the input file: where it is (`src`, `len`), how many
/// samples it holds, its decode time in track units, and where it goes in the output
/// (`rel` from the start of the media data, `out` in the output file).
#[derive(Clone, Copy, Debug, PartialEq, Eq)]
pub struct Chunk {
    pub src: u64,
    pub len: u64,
    pub count: u32,
    pub dts: u64,
    pub rel: u64,
    pub out: u64,
}

/// Sample defaults of the movie (`mvex/trex`).
#[derive(Clone, Copy, Debug, PartialEq, Eq)]
pub struct Trex {
    pub dur: u32,
    pub size: u32,
    pub flags: u32,
}

/// Base offset and sample defaults of a track fragment (`tfhd`).
#[derive(Clone, Copy, Debug, PartialEq, Eq)]
pub struct Tfhd {
    pub base: u64,
    pub dur: u32,
    pub size: u32,
    pub flags: u32,
}

/// The 24-bit flags of the full box whose version byte is at `o`.
pub open spec fn flags_spec(b: Seq<u8>, o: int) -> u32 {
    (b[o + 1] as nat * 0x1_0000 + b[o + 2] as nat * 0x100 + b[o + 3] as nat) as u32
}

/// The fields of a `tfhd` whose contents start at `body`: flags, track id, then the
/// optional base data offset (0x1), description index (0x2), default duration (0x8),
/// size (0x10) and flags (0x20). Missing ones come from `moof_start` and `trex`.
pub open spec fn tfhd_spec(b: Seq<u8>, body: int, moof_start: u64, trex: Trex) -> Result<Tfhd, Mp4Error> {
    if body + 4 > b.len() {
        Err(Mp4Error::OutOfRange)
    } else {
        let tf = flags_spec(b, body);
        let o0 = body + 8;
        let o1 = if tf & 1 != 0 { o0 + 8 } else { o0 };
        let o2 = if tf & 2 != 0 { o1 + 4 } else { o1 };
        let o3 = if tf & 8 != 0 { o2 + 4 } else { o2 };
        let o4 = if tf & 0x10 != 0 { o3 + 4 } else { o3 };
        if (tf & 1 != 0 && o0 + 8 > b.len()) || (tf & 8 != 0 && o2 + 4 > b.len())
            || (tf & 0x10 != 0 && o3 + 4 > b.len()) || (tf & 0x20 != 0 && o4 + 4 > b.len()) {
            Err(Mp4Error::OutOfRange)
        } else {
            Ok(Tfhd {
                base: if tf & 1 != 0 { u64_spec(b, o0) } else { moof_start },
                dur: if tf & 8 != 0 { u32_spec(b, o2) } else { trex.dur },
                size: if tf & 0x10 != 0 { u32_spec(b, o3) } else { trex.size },
                flags: if tf & 0x20 != 0 { u32_spec(b, o4) } else { trex.flags },
            })
        }
    }
}

fn tfhd_read(buf: &[u8], body: usize, moof_start: u64, trex: Trex) -> (r: Result<Tfhd, Mp4Error>)
    requires
        body + 32 <= usize::MAX,
    ensures
        r == tfhd_spec(buf@, body as int, moof_start, trex),
{
    let tf = flags_at(buf, body)?;
    let mut o = body + 8;
    let mut d = Tfhd { base: moof_start, dur: trex.dur, size: trex.size, flags: trex.flags };
    if tf & 1 != 0 {
        d.base = u64_at(buf, o)?;
        o = o + 8;
    }
    if tf & 2 != 0 {
        o = o + 4;
    }
    if tf & 8 != 0 {
        d.dur = u32_at(buf, o)?;
        o = o + 4;
    }
    if tf & 0x10 != 0 {
        d.size = u32_at(buf, o)?;
        o = o + 4;
    }
    if tf & 0x20 != 0 {
        d.flags = u32_at(buf, o)?;
    }
    Ok(d)
}

/// The decode time of a `tfdt` whose contents start at `body` (64 bits in version 1).
pub open spec fn tfdt_spec(b: Seq<u8>, body: int) -> Result<u64, Mp4Error> {
    if body + 1 > b.len() {
        Err(Mp4Error::OutOfRange)
    } else if b[body] == 1 {
        if body + 12 > b.len() { Err(Mp4Error::OutOfRange) } else { Ok(u64_spec(b, body + 4)) }
    } else {
        if body + 8 > b.len() { Err(Mp4Error::OutOfRange) } else { Ok(u32_spec(b, body + 4) as u64) }
    }
}

fn tfdt_read(buf: &[u8], body: usize) -> (r: Result<u64, Mp4Error>)
    requires
        body + 16 <= usize::MAX,
    ensures
        r == tfdt_spec(buf@, body as int),
{
    if u8_at(buf, body)? == 1 {
        u64_at(buf, body + 4)
    } else {
        let v = u32_at(buf, body + 4)?;
        Ok(v as u64)
    }
}

/// Bytes per sample entry of a `trun` with flags `f`: duration (0x100), size (0x200),
/// flags (0x400) and composition offset (0x800), four bytes each.
pub open spec fn stride(f: u32) -> int {
    (if f & 0x100 != 0 { 4int } else { 0 }) + (if f & 0x200 != 0 { 4int } else { 0 })
        + (if f & 0x400 != 0 { 4int } else { 0 }) + (if f & 0x800 != 0 { 4int } else { 0 })
}

/// Sample `i` of a run, its entry at `q`. A sample with no flags of its own takes the
/// run's first-sample flags (sample 0 only) or the default; bit 0x10000 marks a non-sync
/// sample. The composition offset is the raw word as a signed value.
pub open spec fn sample_spec(b: Seq<u8>, q: int, f: u32, d: Tfhd, first: Option<u32>, i: int) -> Sample {
    let q1 = q + if f & 0x100 != 0 { 4int } else { 0 };
    let q2 = q1 + if f & 0x200 != 0 { 4int } else { 0 };
    let q3 = q2 + if f & 0x400 != 0 { 4int } else { 0 };
    let flags = if f & 0x400 != 0 {
        u32_spec(b, q2)
    } else if i == 0 && first is Some {
        first->0
    } else {
        d.flags
    };
    Sample {
        dur: if f & 0x100 != 0 { u32_spec(b, q) } else { d.dur },
        size: if f & 0x200 != 0 { u32_spec(b, q1) } else { d.size },
        cto: if f & 0x800 != 0 { u32_spec(b, q3) as i32 } else { 0 },
        sync: flags & 0x10000 == 0,
    }
}

pub open spec fn size_sum(s: Seq<Sample>) -> nat
    decreases s.len(),
{
    if s.len() == 0 { 0 } else { size_sum(s.drop_last()) + s.last().size as nat }
}

pub open spec fn dur_sum(s: Seq<Sample>) -> nat
    decreases s.len(),
{
    if s.len() == 0 { 0 } else { dur_sum(s.drop_last()) + s.last().dur as nat }
}

/// What one `trun` adds: its samples, its chunk, and the data cursor and decode time after it.
pub struct Run {
    pub samples: Seq<Sample>,
    pub chunk: Chunk,
    pub cursor: u64,
    pub dts: u64,
}

/// A `trun` whose contents start at `body`: flags, sample count, the optional data offset
/// from `base` (0x1, else the run follows the previous one at `cursor`), the optional
/// first-sample flags (0x4), then one entry per sample.
pub open spec fn run_spec(b: Seq<u8>, body: int, base: u64, cursor: u64, d: Tfhd, dts: u64) -> Result<Run, Mp4Error> {
    if body + 8 > b.len() {
        Err(Mp4Error::OutOfRange)
    } else {
        let f = flags_spec(b, body);
        let count = u32_spec(b, body + 4);
        let p0 = body + 8;
        let p1 = if f & 1 != 0 { p0 + 4 } else { p0 };
        let p2 = if f & 4 != 0 { p1 + 4 } else { p1 };
        if f & 1 != 0 && p0 + 4 > b.len() {
            Err(Mp4Error::OutOfRange)
        } else if count > MAX_SAMPLES_PER_RUN {
            Err(Mp4Error::TooManySamples)
        } else if f & 4 != 0 && p1 + 4 > b.len() {
            Err(Mp4Error::OutOfRange)
        } else if p2 + count * stride(f) > b.len() {
            Err(Mp4Error::OutOfRange)
        } else {
            let start: int = if f & 1 != 0 { base + u32_spec(b, p0) as i32 } else { cursor as int };
            let first = if f & 4 != 0 { Some(u32_spec(b, p1)) } else { None };
            let samples = Seq::new(count as nat, |i: int| sample_spec(b, p2 + i * stride(f), f, d, first, i));
            let size = size_sum(samples);
            let dur = dur_sum(samples);
            if start < 0 || start + size > u64::MAX || dts + dur > u64::MAX {
                Err(Mp4Error::Overflow)
            } else {
                Ok(Run {
                    samples,
                    chunk: Chunk { src: start as u64, len: size as u64, count, dts, rel: 0, out: 0 },
                    cursor: (start + size) as u64,
                    dts: (dts + dur) as u64,
                })
            }
        }
    }
}

proof fn lemma_sums_push(s: Seq<Sample>, x: Sample)
    ensures
        size_sum(s.push(x)) == size_sum(s) + x.size,
        dur_sum(s.push(x)) == dur_sum(s) + x.dur,
{
    assert(s.push(x).drop_last() =~= s);
}

fn sample_read(buf: &[u8], q: usize, f: u32, d: Tfhd, first: Option<u32>, i: u32) -> (s: Sample)
    requires
        q + stride(f) <= buf.len(),
    ensures
        s == sample_spec(buf@, q as int, f, d, first, i as int),
{
    let mut o = q;
    let mut dur = d.dur;
    let mut size = d.size;
    let mut cto: i32 = 0;
    let mut flags = if i == 0 {
        match first {
            Some(x) => x,
            None => d.flags,
        }
    } else {
        d.flags
    };
    if f & 0x100 != 0 {
        dur = u32_in(buf, o);
        o = o + 4;
    }
    if f & 0x200 != 0 {
        size = u32_in(buf, o);
        o = o + 4;
    }
    if f & 0x400 != 0 {
        flags = u32_in(buf, o);
        o = o + 4;
    }
    if f & 0x800 != 0 {
        cto = #[verifier::truncate] (u32_in(buf, o) as i32);
    }
    Sample { dur, size, cto, sync: flags & 0x10000 == 0 }
}

fn stride_of(f: u32) -> (st: usize)
    ensures
        st == stride(f),
        st <= 16,
{
    let mut st: usize = 0;
    if f & 0x100 != 0 {
        st = st + 4;
    }
    if f & 0x200 != 0 {
        st = st + 4;
    }
    if f & 0x400 != 0 {
        st = st + 4;
    }
    if f & 0x800 != 0 {
        st = st + 4;
    }
    st
}

/// What `run_read` gives for a run.
pub open spec fn run_result(r: Result<(Vec<Sample>, Chunk, u64, u64), Mp4Error>, spec: Result<Run, Mp4Error>) -> bool {
    match spec {
        Ok(run) => r matches Ok((s, c, cur, t)) && s@ == run.samples && c == run.chunk && cur == run.cursor && t == run.dts,
        Err(e) => r == Err::<(Vec<Sample>, Chunk, u64, u64), Mp4Error>(e),
    }
}

fn run_read(buf: &[u8], body: usize, base: u64, cursor: u64, d: Tfhd, dts: u64)
    -> (r: Result<(Vec<Sample>, Chunk, u64, u64), Mp4Error>)
    ensures
        run_result(r, run_spec(buf@, body as int, base, cursor, d, dts)),
{
    if body > buf.len() || buf.len() - body < 8 {
        return Err(Mp4Error::OutOfRange);
    }
    let f = flags_at(buf, body)?;
    let count = u32_in(buf, body + 4);
    let mut p = body + 8;
    let mut start: i128 = cursor as i128;
    if f & 1 != 0 {
        if buf.len() - p < 4 {
            return Err(Mp4Error::OutOfRange);
        }
        let off = #[verifier::truncate] (u32_in(buf, p) as i32);
        start = base as i128 + off as i128;
        p = p + 4;
    }
    if count > MAX_SAMPLES_PER_RUN {
        return Err(Mp4Error::TooManySamples);
    }
    let mut first: Option<u32> = None;
    if f & 4 != 0 {
        if buf.len() - p < 4 {
            return Err(Mp4Error::OutOfRange);
        }
        first = Some(u32_in(buf, p));
        p = p + 4;
    }
    let st = stride_of(f);
    assert(count * st <= 0x1000_0000) by (nonlinear_arith)
        requires count <= MAX_SAMPLES_PER_RUN, st <= 16, MAX_SAMPLES_PER_RUN == 0x100_0000;
    let need = (count as usize) * st;
    if buf.len() - p < need {
        return Err(Mp4Error::OutOfRange);
    }
    let ghost spec_samples = Seq::new(count as nat, |i: int| sample_spec(buf@, p + i * stride(f), f, d, first, i));
    let mut samples: Vec<Sample> = Vec::new();
    let mut size: u64 = 0;
    let mut dur: u64 = 0;
    let mut i: u32 = 0;
    let mut q = p;
    while i < count
        invariant
            i <= count,
            count <= MAX_SAMPLES_PER_RUN,
            st == stride(f),
            st <= 16,
            p + count * st <= buf.len(),
            q == p + i * st,
            samples@.len() == i,
            forall|j: int| 0 <= j < i ==> #[trigger] samples@[j] == spec_samples[j],
            spec_samples == Seq::new(count as nat, |i: int| sample_spec(buf@, p + i * stride(f), f, d, first, i)),
            size == size_sum(samples@),
            dur == dur_sum(samples@),
            size <= i as int * 0xFFFF_FFFF,
            dur <= i as int * 0xFFFF_FFFF,
        decreases count - i,
    {
        proof {
            assert(q + st <= p + count * st) by (nonlinear_arith)
                requires q == p + i * st, i < count;
            assert((i + 1) * st == i * st + st) by (nonlinear_arith);
        }
        let smp = sample_read(buf, q, f, d, first, i);
        let ghost before = samples@;
        samples.push(smp);
        proof {
            lemma_sums_push(before, smp);
        }
        size = size + smp.size as u64;
        dur = dur + smp.dur as u64;
        q = q + st;
        i = i + 1;
    }
    assert(samples@ =~= spec_samples);
    if start < 0 || start + size as i128 > 0xFFFF_FFFF_FFFF_FFFFi128 || dts as i128 + dur as i128 > 0xFFFF_FFFF_FFFF_FFFFi128 {
        return Err(Mp4Error::Overflow);
    }
    let src = start as u64;
    let chunk = Chunk { src, len: size, count, dts, rel: 0, out: 0 };
    Ok((samples, chunk, src + size, dts + dur))
}

/// Samples, chunks and decode time after them, as parsing produces them.
pub type Parsed = (Seq<Sample>, Seq<Chunk>, u64);

/// `s` and `c` before what `r` holds.
pub open spec fn glue(s: Seq<Sample>, c: Seq<Chunk>, r: Result<Parsed, Mp4Error>) -> Result<Parsed, Mp4Error> {
    match r {
        Ok((s2, c2, t)) => Ok((s + s2, c + c2, t)),
        Err(e) => Err(e),
    }
}

proof fn lemma_glue_glue(s1: Seq<Sample>, c1: Seq<Chunk>, s2: Seq<Sample>, c2: Seq<Chunk>, r: Result<Parsed, Mp4Error>)
    ensures
        glue(s1, c1, glue(s2, c2, r)) == glue(s1 + s2, c1 + c2, r),
{
    match r {
        Ok((s3, c3, t)) => {
            assert(s1 + (s2 + s3) =~= s1 + s2 + s3);
            assert(c1 + (c2 + c3) =~= c1 + c2 + c3);
        }
        Err(_) => {}
    }
}

proof fn lemma_glue_empty(r: Result<Parsed, Mp4Error>)
    ensures
        glue(Seq::empty(), Seq::empty(), r) == r,
{
    match r {
        Ok((s, c, t)) => {
            assert(Seq::<Sample>::empty() + s =~= s);
            assert(Seq::<Chunk>::empty() + c =~= c);
        }
        Err(_) => {}
    }
}

pub open spec fn trun4() -> Seq<u8> { seq![0x74u8, 0x72, 0x75, 0x6e] }
pub open spec fn traf4() -> Seq<u8> { seq![0x74u8, 0x72, 0x61, 0x66] }

/// The runs of a track fragment, from its child boxes in order (other boxes are skipped).
/// Each run that sets no data offset follows the previous one.
pub open spec fn runs_spec(b: Seq<u8>, kids: Seq<Span>, base: u64, cursor: u64, d: Tfhd, dts: u64) -> Result<Parsed, Mp4Error>
    decreases kids.len(),
{
    if kids.len() == 0 {
        Ok((Seq::empty(), Seq::empty(), dts))
    } else if kids[0].typ != trun4() {
        runs_spec(b, kids.drop_first(), base, cursor, d, dts)
    } else {
        match run_spec(b, kids[0].start + kids[0].hdr, base, cursor, d, dts) {
            Err(e) => Err(e),
            Ok(r) => glue(r.samples, seq![r.chunk], runs_spec(b, kids.drop_first(), base, r.cursor, d, r.dts)),
        }
    }
}

fn runs_read(buf: &[u8], kids: &Vec<BoxNode>, base: u64, d: Tfhd, dts: u64) -> (r: Result<(Vec<Sample>, Vec<Chunk>, u64), Mp4Error>)
    requires
        forall|j: int| 0 <= j < kids.len() ==> (#[trigger] kids@[j]).wf(),
    ensures
        match runs_spec(buf@, spans(kids@), base, base, d, dts) {
            Ok((s, c, t)) => r matches Ok((rs, rc, rt)) && rs@ == s && rc@ == c && rt == t,
            Err(e) => r == Err::<(Vec<Sample>, Vec<Chunk>, u64), Mp4Error>(e),
        },
{
    let ghost all = spans(kids@);
    let ghost n = kids.len() as int;
    let trun: [u8; 4] = [0x74, 0x72, 0x75, 0x6e];
    assert(trun@ =~= trun4());
    let mut samples: Vec<Sample> = Vec::new();
    let mut chunks: Vec<Chunk> = Vec::new();
    let mut cursor = base;
    let mut t = dts;
    let mut i: usize = 0;
    proof {
        assert(all.subrange(0, n) =~= all);
        lemma_glue_empty(runs_spec(buf@, all, base, base, d, dts));
    }
    while i < kids.len()
        invariant
            i <= kids.len(),
            n == kids.len(),
            all == spans(kids@),
            trun@ == trun4(),
            forall|j: int| 0 <= j < kids.len() ==> (#[trigger] kids@[j]).wf(),
            runs_spec(buf@, all, base, base, d, dts)
                == glue(samples@, chunks@, runs_spec(buf@, all.subrange(i as int, n), base, cursor, d, t)),
        decreases kids.len() - i,
    {
        let k = kids[i];
        let ghost rest = all.subrange(i as int, n);
        proof {
            assert(rest[0] == k.span());
            assert(rest.drop_first() =~= all.subrange(i + 1, n));
            assert(kids@[i as int].wf());
        }
        if same_typ(&k.typ, &trun) {
            let res = run_read(buf, k.body, base, cursor, d, t);
            match res {
                Err(e) => {
                    return Err(e);
                }
                Ok((s, c, cur, t2)) => {
                    let ghost sv = s@;
                    let ghost cv = chunks@;
                    let ghost svb = samples@;
                    let mut s = s;
                    samples.append(&mut s);
                    chunks.push(c);
                    proof {
                        lemma_glue_glue(svb, cv, sv, seq![c], runs_spec(buf@, all.subrange(i + 1, n), base, cur, d, t2));
                        assert(cv.push(c) =~= cv + seq![c]);
                    }
                    cursor = cur;
                    t = t2;
                }
            }
        }
        i = i + 1;
    }
    proof {
        assert(all.subrange(i as int, n) =~= Seq::<Span>::empty());
        assert(samples@ + Seq::<Sample>::empty() =~= samples@);
        assert(chunks@ + Seq::<Chunk>::empty() =~= chunks@);
    }
    Ok((samples, chunks, t))
}

pub open spec fn tfhd4() -> Seq<u8> { seq![0x74u8, 0x66, 0x68, 0x64] }
pub open spec fn tfdt4() -> Seq<u8> { seq![0x74u8, 0x66, 0x64, 0x74] }

/// A track fragment (`traf`) whose contents are `b[body..end]`: its header (`tfhd`, required)
/// gives the base offset and defaults, an optional `tfdt` resets the decode time, then the runs.
#[verifier::opaque]
pub open spec fn traf_spec(b: Seq<u8>, body: int, end: int, moof_start: u64, trex: Trex, dts: u64) -> Result<Parsed, Mp4Error> {
    match children_spec(b, body, end) {
        Err(e) => Err(e),
        Ok(kids) => match first_of(kids, tfhd4()) {
            None => Err(Mp4Error::TrafWithoutTfhd),
            Some(i) => match tfhd_spec(b, kids[i].start + kids[i].hdr, moof_start, trex) {
                Err(e) => Err(e),
                Ok(d) => {
                    let t = match first_of(kids, tfdt4()) {
                        None => Ok(dts),
                        Some(j) => tfdt_spec(b, kids[j].start + kids[j].hdr),
                    };
                    match t {
                        Err(e) => Err(e),
                        Ok(t) => runs_spec(b, kids, d.base, d.base, d, t),
                    }
                }
            },
        },
    }
}

fn traf_read(buf: &[u8], traf: &BoxNode, moof_start: u64, trex: Trex, dts: u64) -> (r: Result<(Vec<Sample>, Vec<Chunk>, u64), Mp4Error>)
    requires
        buf.len() + 64 <= usize::MAX,
    ensures
        match traf_spec(buf@, traf.body as int, traf.end as int, moof_start, trex, dts) {
            Ok((s, c, t)) => r matches Ok((rs, rc, rt)) && rs@ == s && rc@ == c && rt == t,
            Err(e) => r == Err::<(Vec<Sample>, Vec<Chunk>, u64), Mp4Error>(e),
        },
{
    reveal(traf_spec);
    let kids = children(buf, traf.body, traf.end)?;
    let tfhd: [u8; 4] = [0x74, 0x66, 0x68, 0x64];
    let tfdt: [u8; 4] = [0x74, 0x66, 0x64, 0x74];
    assert(tfhd@ =~= tfhd4());
    assert(tfdt@ =~= tfdt4());
    let i = match first_index(&kids, &tfhd) {
        Some(i) => i,
        None => {
            return Err(Mp4Error::TrafWithoutTfhd);
        }
    };
    proof {
        assert(kids@[i as int].wf());
        assert(spans(kids@)[i as int] == kids@[i as int].span());
        lemma_span_end(buf@, traf.body as int, traf.end as int, i as int);
    }
    let d = tfhd_read(buf, kids[i].body, moof_start, trex)?;
    let t = match first_index(&kids, &tfdt) {
        None => dts,
        Some(j) => {
            proof {
                assert(kids@[j as int].wf());
                assert(spans(kids@)[j as int] == kids@[j as int].span());
                lemma_span_end(buf@, traf.body as int, traf.end as int, j as int);
            }
            tfdt_read(buf, kids[j].body)?
        }
    };
    runs_read(buf, &kids, d.base, d, t)
}

/// Every box that `children` reads lies inside the buffer.
pub proof fn lemma_span_end(b: Seq<u8>, start: int, end: int, i: int)
    requires
        children_spec(b, start, end) matches Ok(sp) && 0 <= i < sp.len(),
    ensures
        children_spec(b, start, end) matches Ok(sp) && sp[i].start + sp[i].hdr <= sp[i].end
            && sp[i].end <= end && sp[i].start >= start && sp[i].start + sp[i].hdr <= b.len(),
    decreases end - start,
{
    reveal_with_fuel(crate::media::mp4::boxes::box_list, 2);
    let sp = children_spec(b, start, end)->Ok_0;
    assert(crate::media::mp4::boxes::box_list(b, start, end) == Ok::<Seq<Span>, int>(sp));
    if i > 0 {
        let size = crate::media::mp4::boxes::size_at(b, start, end);
        lemma_span_end(b, start + size, end, i - 1);
        let rest = children_spec(b, start + size, end)->Ok_0;
        assert(sp == seq![sp[0]] + rest);
        assert(sp[i] == rest[i - 1]);
    }
}

/// The track fragments of a `moof`, from its child boxes in order (other boxes are skipped).
pub open spec fn trafs_spec(b: Seq<u8>, kids: Seq<Span>, moof_start: u64, trex: Trex, dts: u64) -> Result<Parsed, Mp4Error>
    decreases kids.len(),
{
    if kids.len() == 0 {
        Ok((Seq::empty(), Seq::empty(), dts))
    } else if kids[0].typ != traf4() {
        trafs_spec(b, kids.drop_first(), moof_start, trex, dts)
    } else {
        match traf_spec(b, kids[0].start + kids[0].hdr, kids[0].end, moof_start, trex, dts) {
            Err(e) => Err(e),
            Ok((s, c, t)) => glue(s, c, trafs_spec(b, kids.drop_first(), moof_start, trex, t)),
        }
    }
}

/// The samples and chunks of one `moof` that starts at `moof_start` in the file.
pub open spec fn moof_spec(b: Seq<u8>, moof_start: u64, trex: Trex, dts: u64) -> Result<Parsed, Mp4Error> {
    match children_spec(b, 8, b.len() as int) {
        Err(e) => Err(e),
        Ok(kids) => trafs_spec(b, kids, moof_start, trex, dts),
    }
}

/// Reads the samples and chunks of one `moof` (the whole box, as read from the file at
/// `moof_start`), continuing from decode time `dts`; gives the decode time after it.
pub fn parse_moof(moof_start: u64, buf: &[u8], trex: Trex, dts: u64) -> (r: Result<(Vec<Sample>, Vec<Chunk>, u64), Mp4Error>)
    requires
        buf.len() + 64 <= usize::MAX,
    ensures
        match moof_spec(buf@, moof_start, trex, dts) {
            Ok((s, c, t)) => r matches Ok((rs, rc, rt)) && rs@ == s && rc@ == c && rt == t,
            Err(e) => r == Err::<(Vec<Sample>, Vec<Chunk>, u64), Mp4Error>(e),
        },
{
    let kids = children(buf, 8, buf.len())?;
    let ghost all = spans(kids@);
    let ghost n = kids.len() as int;
    let traf: [u8; 4] = [0x74, 0x72, 0x61, 0x66];
    assert(traf@ =~= traf4());
    let mut samples: Vec<Sample> = Vec::new();
    let mut chunks: Vec<Chunk> = Vec::new();
    let mut t = dts;
    let mut i: usize = 0;
    proof {
        assert(all.subrange(0, n) =~= all);
        lemma_glue_empty(trafs_spec(buf@, all, moof_start, trex, dts));
    }
    while i < kids.len()
        invariant
            i <= kids.len(),
            n == kids.len(),
            buf.len() + 64 <= usize::MAX,
            all == spans(kids@),
            traf@ == traf4(),
            forall|j: int| 0 <= j < kids.len() ==> (#[trigger] kids@[j]).wf(),
            moof_spec(buf@, moof_start, trex, dts) == trafs_spec(buf@, all, moof_start, trex, dts),
            trafs_spec(buf@, all, moof_start, trex, dts)
                == glue(samples@, chunks@, trafs_spec(buf@, all.subrange(i as int, n), moof_start, trex, t)),
        decreases kids.len() - i,
    {
        let k = kids[i];
        let ghost rest = all.subrange(i as int, n);
        proof {
            assert(rest[0] == k.span());
            assert(rest.drop_first() =~= all.subrange(i + 1, n));
            assert(kids@[i as int].wf());
        }
        if same_typ(&k.typ, &traf) {
            let res = traf_read(buf, &k, moof_start, trex, t);
            match res {
                Err(e) => {
                    assert(trafs_spec(buf@, rest, moof_start, trex, t) == Err::<Parsed, Mp4Error>(e));
                    return Err(e);
                }
                Ok((s, c, t2)) => {
                    let ghost sv = s@;
                    let ghost cv = c@;
                    let ghost svb = samples@;
                    let ghost cvb = chunks@;
                    let mut s = s;
                    let mut c = c;
                    samples.append(&mut s);
                    chunks.append(&mut c);
                    proof {
                        lemma_glue_glue(svb, cvb, sv, cv, trafs_spec(buf@, all.subrange(i + 1, n), moof_start, trex, t2));
                    }
                    t = t2;
                }
            }
        }
        i = i + 1;
    }
    proof {
        assert(all.subrange(i as int, n) =~= Seq::<Span>::empty());
        assert(samples@ + Seq::<Sample>::empty() =~= samples@);
        assert(chunks@ + Seq::<Chunk>::empty() =~= chunks@);
    }
    Ok((samples, chunks, t))
}

/// The samples and chunks of all the `moof`s of a file, in file order, the decode time
/// running on from one to the next.
pub open spec fn moofs_spec(moofs: Seq<(u64, Seq<u8>)>, trex: Trex, dts: u64) -> Result<Parsed, Mp4Error>
    decreases moofs.len(),
{
    if moofs.len() == 0 {
        Ok((Seq::empty(), Seq::empty(), dts))
    } else {
        match moof_spec(moofs[0].1, moofs[0].0, trex, dts) {
            Err(e) => Err(e),
            Ok((s, c, t)) => glue(s, c, moofs_spec(moofs.drop_first(), trex, t)),
        }
    }
}

pub open spec fn moofs_view(moofs: Seq<(u64, Vec<u8>)>) -> Seq<(u64, Seq<u8>)> {
    Seq::new(moofs.len(), |i: int| (moofs[i].0, moofs[i].1@))
}

pub open spec fn mvex4() -> Seq<u8> { seq![0x6du8, 0x76, 0x65, 0x78] }

pub open spec fn body_of(s: Span) -> int {
    s.start + s.hdr
}

/// The sample defaults of a `moov`: those of the `trex` in its last `mvex`, else zeros.
pub open spec fn trex_loop(m: Seq<u8>, kids: Seq<Span>, acc: Trex) -> Result<Trex, Mp4Error>
    decreases kids.len(),
{
    if kids.len() == 0 {
        Ok(acc)
    } else if kids[0].typ != mvex4() {
        trex_loop(m, kids.drop_first(), acc)
    } else {
        match find_spec(m, body_of(kids[0]), kids[0].end, [0x74u8, 0x72, 0x65, 0x78]) {
            Err(e) => Err(e),
            Ok(t) => if body_of(t) + 24 > m.len() {
                Err(Mp4Error::OutOfRange)
            } else {
                trex_loop(m, kids.drop_first(), Trex {
                    dur: u32_spec(m, body_of(t) + 12),
                    size: u32_spec(m, body_of(t) + 16),
                    flags: u32_spec(m, body_of(t) + 20),
                })
            },
        }
    }
}

pub open spec fn trex_spec(m: Seq<u8>) -> Result<Trex, Mp4Error> {
    match children_spec(m, 8, m.len() as int) {
        Err(e) => Err(e),
        Ok(kids) => trex_loop(m, kids, Trex { dur: 0, size: 0, flags: 0 }),
    }
}

fn trex_read(moov: &[u8]) -> (r: Result<Trex, Mp4Error>)
    requires
        moov.len() + 64 <= usize::MAX,
    ensures
        r == trex_spec(moov@),
{
    let kids = children(moov, 8, moov.len())?;
    let ghost all = spans(kids@);
    let ghost n = kids.len() as int;
    let mvex: [u8; 4] = [0x6d, 0x76, 0x65, 0x78];
    let trex_typ: [u8; 4] = [0x74, 0x72, 0x65, 0x78];
    assert(mvex@ =~= mvex4());
    let mut acc = Trex { dur: 0, size: 0, flags: 0 };
    let mut i: usize = 0;
    assert(all.subrange(0, n) =~= all);
    while i < kids.len()
        invariant
            i <= kids.len(),
            n == kids.len(),
            moov.len() + 64 <= usize::MAX,
            all == spans(kids@),
            mvex@ == mvex4(),
            trex_typ == [0x74u8, 0x72, 0x65, 0x78],
            forall|j: int| 0 <= j < kids.len() ==> (#[trigger] kids@[j]).wf(),
            trex_spec(moov@) == trex_loop(moov@, all.subrange(i as int, n), acc),
        decreases kids.len() - i,
    {
        let k = kids[i];
        let ghost rest = all.subrange(i as int, n);
        proof {
            assert(rest[0] == k.span());
            assert(rest.drop_first() =~= all.subrange(i + 1, n));
            assert(kids@[i as int].wf());
        }
        if same_typ(&k.typ, &mvex) {
            let t = find(moov, &k, &trex_typ)?;
            if moov.len() < 24 || t.body > moov.len() - 24 {
                return Err(Mp4Error::OutOfRange);
            }
            acc = Trex { dur: u32_in(moov, t.body + 12), size: u32_in(moov, t.body + 16), flags: u32_in(moov, t.body + 20) };
        }
        i = i + 1;
    }
    assert(all.subrange(i as int, n) =~= Seq::<Span>::empty());
    Ok(acc)
}

/// Where the boxes a track needs lie in its `moov`, its timescale and its sample format.
pub struct Layout {
    pub trak: Span,
    pub stsd: Span,
    pub timescale: u32,
    pub fourcc: Seq<u8>,
}

pub open spec fn t4(a: u8, b: u8, c: u8, d: u8) -> [u8; 4] {
    [a, b, c, d]
}

/// `moov/trak/mdia/{mdhd, minf/stbl/stsd}`, the timescale in `mdhd` (after 64-bit times in
/// version 1) and the format of the first sample description.
pub open spec fn layout_spec(m: Seq<u8>) -> Result<Layout, Mp4Error> {
    match find_spec(m, 8, m.len() as int, t4(0x74, 0x72, 0x61, 0x6b)) {
        Err(e) => Err(e),
        Ok(trak) => match find_spec(m, body_of(trak), trak.end, t4(0x6d, 0x64, 0x69, 0x61)) {
            Err(e) => Err(e),
            Ok(mdia) => match find_spec(m, body_of(mdia), mdia.end, t4(0x6d, 0x64, 0x68, 0x64)) {
                Err(e) => Err(e),
                Ok(mdhd) => match find_spec(m, body_of(mdia), mdia.end, t4(0x6d, 0x69, 0x6e, 0x66)) {
                    Err(e) => Err(e),
                    Ok(minf) => match find_spec(m, body_of(minf), minf.end, t4(0x73, 0x74, 0x62, 0x6c)) {
                        Err(e) => Err(e),
                        Ok(stbl) => match find_spec(m, body_of(stbl), stbl.end, t4(0x73, 0x74, 0x73, 0x64)) {
                            Err(e) => Err(e),
                            Ok(stsd) => layout_fields(m, trak, mdhd, stsd),
                        },
                    },
                },
            },
        },
    }
}

pub open spec fn layout_fields(m: Seq<u8>, trak: Span, mdhd: Span, stsd: Span) -> Result<Layout, Mp4Error> {
    if body_of(mdhd) + 1 > m.len() {
        Err(Mp4Error::OutOfRange)
    } else {
        let ts_off = body_of(mdhd) + if m[body_of(mdhd)] == 1 { 20int } else { 12 };
        if ts_off + 4 > m.len() {
            Err(Mp4Error::OutOfRange)
        } else if u32_spec(m, ts_off) == 0 {
            Err(Mp4Error::ZeroTimescale)
        } else if body_of(stsd) + 16 > m.len() {
            Err(Mp4Error::OutOfRange)
        } else {
            Ok(Layout {
                trak,
                stsd,
                timescale: u32_spec(m, ts_off),
                fourcc: m.subrange(body_of(stsd) + 12, body_of(stsd) + 16),
            })
        }
    }
}

fn typ4(a: u8, b: u8, c: u8, d: u8) -> (t: [u8; 4])
    ensures
        t == t4(a, b, c, d),
{
    [a, b, c, d]
}

fn layout_read(moov: &[u8]) -> (r: Result<(BoxNode, BoxNode, u32, [u8; 4]), Mp4Error>)
    requires
        moov.len() + 64 <= usize::MAX,
    ensures
        match layout_spec(moov@) {
            Ok(l) => r matches Ok((trak, stsd, ts, fourcc)) && trak.span() == l.trak && stsd.span() == l.stsd
                && trak.wf() && stsd.wf() && ts == l.timescale && fourcc@ == l.fourcc
                && trak.body <= trak.end <= moov.len() && stsd.body <= stsd.end <= moov.len() && ts > 0,
            Err(e) => r == Err::<(BoxNode, BoxNode, u32, [u8; 4]), Mp4Error>(e),
        },
{
    let top = top_of(moov);
    let trak = find(moov, &top, &typ4(0x74, 0x72, 0x61, 0x6b))?;
    let mdia = find(moov, &trak, &typ4(0x6d, 0x64, 0x69, 0x61))?;
    let mdhd = find(moov, &mdia, &typ4(0x6d, 0x64, 0x68, 0x64))?;
    let minf = find(moov, &mdia, &typ4(0x6d, 0x69, 0x6e, 0x66))?;
    let stbl = find(moov, &minf, &typ4(0x73, 0x74, 0x62, 0x6c))?;
    let stsd = find(moov, &stbl, &typ4(0x73, 0x74, 0x73, 0x64))?;
    proof {
        lemma_find_inside(moov@, 8, moov.len() as int, t4(0x74, 0x72, 0x61, 0x6b));
        lemma_find_inside(moov@, body_of(trak.span()), trak.end as int, t4(0x6d, 0x64, 0x69, 0x61));
        lemma_find_inside(moov@, body_of(mdia.span()), mdia.end as int, t4(0x6d, 0x64, 0x68, 0x64));
        lemma_find_inside(moov@, body_of(mdia.span()), mdia.end as int, t4(0x6d, 0x69, 0x6e, 0x66));
        lemma_find_inside(moov@, body_of(minf.span()), minf.end as int, t4(0x73, 0x74, 0x62, 0x6c));
        lemma_find_inside(moov@, body_of(stbl.span()), stbl.end as int, t4(0x73, 0x74, 0x73, 0x64));
    }
    let v = u8_at(moov, mdhd.body)?;
    let ts_off = mdhd.body + if v == 1 { 20 } else { 12 };
    let timescale = u32_at(moov, ts_off)?;
    if timescale == 0 {
        return Err(Mp4Error::ZeroTimescale);
    }
    let f = rd(moov, stsd.body + 12, 4)?;
    let fourcc = [f[0], f[1], f[2], f[3]];
    assert(fourcc@ =~= f@);
    Ok((trak, stsd, timescale, fourcc))
}

/// A box that `find` gives lies inside the buffer.
pub proof fn lemma_find_inside_pub(b: Seq<u8>, body: int, end: int, typ: [u8; 4])
    ensures
        find_spec(b, body, end, typ) matches Ok(s) ==> s.start + s.hdr <= b.len() && s.start + s.hdr <= s.end
            && s.end <= end,
{
    lemma_find_inside(b, body, end, typ);
}

proof fn lemma_find_inside(b: Seq<u8>, body: int, end: int, typ: [u8; 4])
    ensures
        find_spec(b, body, end, typ) matches Ok(s) ==> s.start + s.hdr <= b.len() && s.start + s.hdr <= s.end
            && s.end <= end,
{
    if let Ok(sp) = children_spec(b, body, end) {
        if let Some(i) = first_of(sp, typ@) {
            lemma_first_of_range(sp, typ@);
            lemma_span_end(b, body, end, i);
        }
    }
}

proof fn lemma_first_of_range(sp: Seq<Span>, t: Seq<u8>)
    ensures
        first_of(sp, t) matches Some(i) ==> 0 <= i < sp.len() && sp[i].typ == t,
    decreases sp.len(),
{
    if sp.len() > 0 && sp[0].typ != t {
        lemma_first_of_range(sp.drop_first(), t);
    }
}

/// One track of a fragmented MP4: its `moov`, where its `trak` and sample descriptions lie,
/// its timescale, sample format, samples, chunks and total duration (track units).
pub struct Track {
    pub moov: Vec<u8>,
    pub trak: BoxNode,
    pub stsd: BoxNode,
    pub timescale: u32,
    pub fourcc: [u8; 4],
    pub samples: Vec<Sample>,
    pub chunks: Vec<Chunk>,
    pub duration: u64,
}

/// What a track is, in terms of its input.
pub struct TrackView {
    pub moov: Seq<u8>,
    pub trak: Span,
    pub stsd: Span,
    pub timescale: u32,
    pub fourcc: Seq<u8>,
    pub samples: Seq<Sample>,
    pub chunks: Seq<Chunk>,
    pub duration: u64,
}

impl View for Track {
    type V = TrackView;

    open spec fn view(&self) -> TrackView {
        TrackView {
            moov: self.moov@,
            trak: self.trak.span(),
            stsd: self.stsd.span(),
            timescale: self.timescale,
            fourcc: self.fourcc@,
            samples: self.samples@,
            chunks: self.chunks@,
            duration: self.duration,
        }
    }
}

impl Track {
    /// The boxes it points at are well formed and inside its `moov`.
    pub open spec fn wf(&self) -> bool {
        &&& self.trak.wf()
        &&& self.stsd.wf()
        &&& self.trak.body <= self.trak.end <= self.moov.len()
        &&& self.stsd.body <= self.stsd.end <= self.moov.len()
        &&& self.timescale > 0
        &&& self.moov.len() + 64 <= usize::MAX
    }
}

/// A track read from its `moov` and its `moof`s (each with where it starts in the file):
/// at least one sample, every chunk inside the file, and the duration as the sum of the
/// sample durations.
pub open spec fn track_spec(m: Seq<u8>, moofs: Seq<(u64, Seq<u8>)>, file_len: u64) -> Result<TrackView, Mp4Error> {
    match layout_spec(m) {
        Err(e) => Err(e),
        Ok(l) => match trex_spec(m) {
            Err(e) => Err(e),
            Ok(trex) => match moofs_spec(moofs, trex, 0) {
                Err(e) => Err(e),
                Ok((s, c, _)) => finish_spec(m, l, s, c, file_len),
            },
        },
    }
}

pub open spec fn finish_spec(m: Seq<u8>, l: Layout, s: Seq<Sample>, c: Seq<Chunk>, file_len: u64) -> Result<TrackView, Mp4Error> {
    if s.len() == 0 {
        Err(Mp4Error::NoSamples)
    } else if exists|i: int| 0 <= i < c.len() && c[i].src + c[i].len > file_len {
        Err(Mp4Error::FragmentOutsideFile)
    } else if dur_sum(s) > u64::MAX {
        Err(Mp4Error::Overflow)
    } else {
        Ok(TrackView {
            moov: m,
            trak: l.trak,
            stsd: l.stsd,
            timescale: l.timescale,
            fourcc: l.fourcc,
            samples: s,
            chunks: c,
            duration: dur_sum(s) as u64,
        })
    }
}

/// Reads a track from its `moov`, its `moof`s in file order, and the file's length.
pub fn read_track(moov: Vec<u8>, moofs: &Vec<(u64, Vec<u8>)>, file_len: u64) -> (r: Result<Track, Mp4Error>)
    requires
        moov.len() + 64 <= usize::MAX,
        forall|i: int| 0 <= i < moofs.len() ==> (#[trigger] moofs@[i]).1.len() + 64 <= usize::MAX,
    ensures
        match track_spec(moov@, moofs_view(moofs@), file_len) {
            Ok(v) => r matches Ok(t) && t@ == v && t.wf(),
            Err(e) => r matches Err(x) && x == e,
        },
{
    let (trak, stsd, timescale, fourcc) = layout_read(&moov)?;
    let trex = trex_read(&moov)?;
    let ghost lv = Layout { trak: trak.span(), stsd: stsd.span(), timescale, fourcc: fourcc@ };
    let ghost whole = track_spec(moov@, moofs_view(moofs@), file_len);
    let ghost mv = moofs_view(moofs@);
    let ghost n = moofs.len() as int;
    let mut samples: Vec<Sample> = Vec::new();
    let mut chunks: Vec<Chunk> = Vec::new();
    let mut dts: u64 = 0;
    let mut i: usize = 0;
    proof {
        assert(mv.subrange(0, n) =~= mv);
        lemma_glue_empty(moofs_spec(mv, trex, 0));
    }
    while i < moofs.len()
        invariant
            i <= moofs.len(),
            n == moofs.len(),
            mv == moofs_view(moofs@),
            layout_spec(moov@) == Ok::<Layout, Mp4Error>(lv),
            trex_spec(moov@) == Ok::<Trex, Mp4Error>(trex),
            whole == track_spec(moov@, mv, file_len),
            forall|j: int| 0 <= j < moofs.len() ==> (#[trigger] moofs@[j]).1.len() + 64 <= usize::MAX,
            moofs_spec(mv, trex, 0) == glue(samples@, chunks@, moofs_spec(mv.subrange(i as int, n), trex, dts)),
        decreases moofs.len() - i,
    {
        let ghost rest = mv.subrange(i as int, n);
        proof {
            assert(rest[0] == (moofs@[i as int].0, moofs@[i as int].1@));
            assert(rest.drop_first() =~= mv.subrange(i + 1, n));
            assert(moofs@[i as int].1.len() + 64 <= usize::MAX);
        }
        let res = parse_moof(moofs[i].0, moofs[i].1.as_slice(), trex, dts);
        match res {
            Err(e) => {
                assert(moofs_spec(rest, trex, dts) == Err::<Parsed, Mp4Error>(e));
                return Err(e);
            }
            Ok((s, c, t)) => {
                let ghost sv = s@;
                let ghost cv = c@;
                let ghost svb = samples@;
                let ghost cvb = chunks@;
                let mut s = s;
                let mut c = c;
                samples.append(&mut s);
                chunks.append(&mut c);
                proof {
                    lemma_glue_glue(svb, cvb, sv, cv, moofs_spec(mv.subrange(i + 1, n), trex, t));
                }
                dts = t;
            }
        }
        i = i + 1;
    }
    proof {
        assert(mv.subrange(i as int, n) =~= Seq::<(u64, Seq<u8>)>::empty());
        assert(samples@ + Seq::<Sample>::empty() =~= samples@);
        assert(chunks@ + Seq::<Chunk>::empty() =~= chunks@);
        assert(whole == finish_spec(moov@, lv, samples@, chunks@, file_len));
    }
    if samples.len() == 0 {
        return Err(Mp4Error::NoSamples);
    }
    let mut k: usize = 0;
    while k < chunks.len()
        invariant
            k <= chunks.len(),
            whole == finish_spec(moov@, lv, samples@, chunks@, file_len),
            whole == track_spec(moov@, moofs_view(moofs@), file_len),
            samples@.len() > 0,
            forall|j: int| 0 <= j < k ==> #[trigger] chunks@[j].src + chunks@[j].len <= file_len,
        decreases chunks.len() - k,
    {
        let c = chunks[k];
        if c.src > file_len || c.len > file_len - c.src {
            assert(chunks@[k as int].src + chunks@[k as int].len > file_len);
            return Err(Mp4Error::FragmentOutsideFile);
        }
        k = k + 1;
    }
    let mut duration: u64 = 0;
    let mut j: usize = 0;
    while j < samples.len()
        invariant
            j <= samples.len(),
            whole == finish_spec(moov@, lv, samples@, chunks@, file_len),
            whole == track_spec(moov@, moofs_view(moofs@), file_len),
            samples@.len() > 0,
            forall|i: int| 0 <= i < chunks@.len() ==> #[trigger] chunks@[i].src + chunks@[i].len <= file_len,
            duration == dur_sum(samples@.subrange(0, j as int)),
        decreases samples.len() - j,
    {
        proof {
            assert(samples@.subrange(0, j + 1).drop_last() =~= samples@.subrange(0, j as int));
        }
        let d = samples[j].dur as u64;
        if duration > 0xFFFF_FFFF_FFFF_FFFF - d {
            proof {
                lemma_dur_sum_prefix(samples@, j + 1);
            }
            return Err(Mp4Error::Overflow);
        }
        duration = duration + d;
        j = j + 1;
    }
    assert(samples@.subrange(0, j as int) =~= samples@);
    Ok(Track { moov, trak, stsd, timescale, fourcc, samples, chunks, duration })
}

proof fn lemma_dur_sum_prefix(s: Seq<Sample>, k: int)
    requires
        0 <= k <= s.len(),
    ensures
        dur_sum(s.subrange(0, k)) <= dur_sum(s),
    decreases s.len() - k,
{
    if k < s.len() {
        lemma_dur_sum_prefix(s, k + 1);
        assert(s.subrange(0, k + 1).drop_last() =~= s.subrange(0, k));
    } else {
        assert(s.subrange(0, k) =~= s);
    }
}

/// `n / d` rounded to the nearest integer, halves away from zero, as a 64-bit value
/// (saturating).
pub open spec fn round_div(n: nat, d: nat) -> u64 {
    let q = (2 * n + d) / (2 * d);
    if q > u64::MAX { u64::MAX } else { q as u64 }
}

impl Track {
    /// The track's duration in the movie's timescale, rounded to the nearest unit.
    pub open spec fn movie_duration_spec(&self, movie_ts: u32) -> u64 {
        round_div(self.duration as nat * movie_ts as nat, self.timescale as nat)
    }

    /// The track's duration in the movie's timescale, rounded to the nearest unit.
    pub fn movie_duration(&self, movie_ts: u32) -> (d: u64)
        requires
            self.timescale > 0,
        ensures
            d == self.movie_duration_spec(movie_ts),
    {
        let a = self.duration as u128;
        let b = movie_ts as u128;
        assert(a * b < 0x1_0000_0000_0000_0000_0000_0000) by (nonlinear_arith)
            requires a < 0x1_0000_0000_0000_0000, b < 0x1_0000_0000;
        let n = a * b;
        let ts = self.timescale as u128;
        let q = (2 * n + ts) / (2 * ts);
        if q > 0xFFFF_FFFF_FFFF_FFFF {
            0xFFFF_FFFF_FFFF_FFFF
        } else {
            q as u64
        }
    }
}

} // verus!
