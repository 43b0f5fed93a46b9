//! The output MP4: sample tables and the rewritten `moov`.

use vstd::prelude::*;
use crate::media::bytes::{be32, be64, push_be64, to_vec};
use crate::media::mp4::boxes::{
    Mp4Error, bx, full_box, w32, w32_spec, box_spec, vf_word, flatten, views, push_part, fourcc, lemma_box_len,
};
use crate::media::mp4::track::{Sample, Chunk, Track, TrackView};

verus! {

// ---------- runs of equal values ----------

/// Runs of equal consecutive values, in order: each value with how many times it repeats.
pub open spec fn runs_of(s: Seq<u32>) -> Seq<(u32, nat)>
    decreases s.len(),
{
    if s.len() == 0 {
        Seq::empty()
    } else {
        let r = runs_of(s.drop_last());
        if r.len() > 0 && r.last().0 == s.last() {
            r.update(r.len() - 1, (s.last(), r.last().1 + 1))
        } else {
            r.push((s.last(), 1))
        }
    }
}

/// A list of runs written out value by value.
pub open spec fn expand(r: Seq<(u32, nat)>) -> Seq<u32>
    decreases r.len(),
{
    if r.len() == 0 { Seq::empty() } else { expand(r.drop_last()) + Seq::new(r.last().1, |i: int| r.last().0) }
}

/// Run-length coding loses nothing: the runs written out give back the values, every run
/// holds at least one value, and neighbouring runs hold different values.
pub proof fn lemma_runs_expand(s: Seq<u32>)
    ensures
        expand(runs_of(s)) == s,
        forall|i: int| 0 <= i < runs_of(s).len() ==> #[trigger] runs_of(s)[i].1 >= 1,
        forall|i: int| 0 < i < runs_of(s).len() ==> #[trigger] runs_of(s)[i].0 != runs_of(s)[i - 1].0,
        runs_of(s).len() <= s.len(),
    decreases s.len(),
{
    if s.len() > 0 {
        let p = s.drop_last();
        lemma_runs_expand(p);
        let r = runs_of(p);
        let v = s.last();
        if r.len() > 0 && r.last().0 == v {
            let r2 = r.update(r.len() - 1, (v, r.last().1 + 1));
            assert(r2.drop_last() =~= r.drop_last());
            assert(Seq::new(r.last().1 + 1, |i: int| v) =~= Seq::new(r.last().1, |i: int| r.last().0).push(v));
            assert(expand(r2) =~= expand(r).push(v));
        } else {
            let r2 = r.push((v, 1));
            assert(r2.drop_last() =~= r);
            assert(Seq::new(1, |i: int| v) =~= seq![v]);
        }
        assert(s =~= p.push(v));
    }
}

/// Runs of equal consecutive values.
pub fn run_length(values: &[u32]) -> (runs: Vec<(u32, u32)>)
    requires
        values.len() <= u32::MAX,
    ensures
        runs@.len() == runs_of(values@).len(),
        forall|i: int| #![trigger runs@[i]] 0 <= i < runs@.len() ==> runs@[i].0 == runs_of(values@)[i].0
            && runs@[i].1 == runs_of(values@)[i].1,
{
    let mut runs: Vec<(u32, u32)> = Vec::new();
    let mut i: usize = 0;
    while i < values.len()
        invariant
            i <= values.len(),
            values.len() <= u32::MAX,
            runs@.len() == runs_of(values@.subrange(0, i as int)).len(),
            forall|j: int| #![trigger runs@[j]] 0 <= j < runs@.len() ==> runs@[j].0 == runs_of(values@.subrange(0, i as int))[j].0
                && runs@[j].1 == runs_of(values@.subrange(0, i as int))[j].1,
        decreases values.len() - i,
    {
        let v = values[i];
        let ghost pre = values@.subrange(0, i as int);
        let ghost next = values@.subrange(0, i + 1);
        proof {
            assert(next.drop_last() =~= pre);
            lemma_runs_expand(pre);
            lemma_run_len_bound(pre);
        }
        let n = runs.len();
        if n > 0 && runs[n - 1].0 == v {
            let c = runs[n - 1].1;
            runs.set(n - 1, (v, c + 1));
        } else {
            runs.push((v, 1));
        }
        i = i + 1;
    }
    assert(values@.subrange(0, i as int) =~= values@);
    runs
}

/// No run is longer than the values it comes from.
proof fn lemma_run_len_bound(s: Seq<u32>)
    ensures
        forall|i: int| 0 <= i < runs_of(s).len() ==> #[trigger] runs_of(s)[i].1 <= s.len(),
    decreases s.len(),
{
    if s.len() > 0 {
        let p = s.drop_last();
        lemma_run_len_bound(p);
        let r = runs_of(p);
        if r.len() > 0 && r.last().0 == s.last() {
            assert(r.last().1 <= p.len());
            let r2 = r.update(r.len() - 1, (s.last(), r.last().1 + 1));
            assert forall|i: int| 0 <= i < r2.len() implies #[trigger] r2[i].1 <= s.len() by {
                if i < r.len() - 1 {
                    assert(r2[i] == r[i]);
                }
            }
        } else {
            let r2 = r.push((s.last(), 1));
            assert forall|i: int| 0 <= i < r2.len() implies #[trigger] r2[i].1 <= s.len() by {
                if i < r.len() {
                    assert(r2[i] == r[i]);
                }
            }
        }
    }
}

// ---------- sample tables ----------

/// A full box: version and flags, then the contents.
pub open spec fn full_spec(typ: Seq<u8>, version: u8, flags: u32, body: Seq<u8>) -> Seq<u8> {
    box_spec(typ, be32(vf_word(version, flags)) + body)
}

/// A full box of version `version` (flags 0) whose contents are big-endian words.
fn words_box(typ: [u8; 4], version: u8, words: &Vec<u32>) -> (out: Vec<u8>)
    requires
        4 * words.len() + 16 <= usize::MAX,
    ensures
        out@ == full_spec(typ@, version, 0, w32_spec(words@)),
        out@.len() == 4 * words.len() + 12,
{
    let b = w32(words.as_slice());
    let ghost bv = b@;
    proof {
        crate::media::mp4::boxes::lemma_w32_reads_back_len(words@);
    }
    let mut parts: Vec<Vec<u8>> = Vec::new();
    proof {
        assert(flatten(views(parts@)) =~= Seq::<u8>::empty());
    }
    push_part(&mut parts, b);
    assert(Seq::<u8>::empty() + bv =~= bv);
    let out = full_box(&typ, version, 0, parts);
    proof {
        lemma_box_len(typ@, be32(vf_word(version, 0)) + bv);
    }
    out
}

pub open spec fn durs(s: Seq<Sample>) -> Seq<u32> {
    Seq::new(s.len(), |i: int| s[i].dur)
}

pub open spec fn ctos(s: Seq<Sample>) -> Seq<u32> {
    Seq::new(s.len(), |i: int| s[i].cto as u32)
}

pub open spec fn sizes(s: Seq<Sample>) -> Seq<u32> {
    Seq::new(s.len(), |i: int| s[i].size)
}

/// Each run as its count, then its value.
pub open spec fn run_words(r: Seq<(u32, nat)>) -> Seq<u32>
    decreases r.len(),
{
    if r.len() == 0 { Seq::empty() } else { run_words(r.drop_last()) + seq![r.last().1 as u32, r.last().0] }
}

/// The table of a run list: the number of runs, then each run.
fn runs_table(values: &Vec<u32>) -> (words: Vec<u32>)
    requires
        values.len() <= u32::MAX,
    ensures
        words@ == seq![runs_of(values@).len() as u32] + run_words(runs_of(values@)),
        words@.len() <= 2 * values.len() + 1,
{
    let runs = run_length(values.as_slice());
    let ghost r = runs_of(values@);
    proof {
        lemma_runs_expand(values@);
        lemma_run_len_bound(values@);
    }
    let mut words: Vec<u32> = Vec::new();
    words.push(runs.len() as u32);
    let mut i: usize = 0;
    while i < runs.len()
        invariant
            i <= runs.len(),
            r == runs_of(values@),
            runs@.len() == r.len(),
            r.len() <= values.len(),
            values.len() <= u32::MAX,
            forall|j: int| #![trigger runs@[j]] 0 <= j < runs@.len() ==> runs@[j].0 == r[j].0 && runs@[j].1 == r[j].1,
            forall|j: int| 0 <= j < r.len() ==> #[trigger] r[j].1 <= values.len(),
            words@ == seq![r.len() as u32] + run_words(r.subrange(0, i as int)),
        decreases runs.len() - i,
    {
        proof {
            assert(r.subrange(0, i + 1).drop_last() =~= r.subrange(0, i as int));
            assert(runs@[i as int].1 == r[i as int].1);
        }
        words.push(runs[i].1);
        words.push(runs[i].0);
        proof {
            assert(r[i as int].1 as u32 == runs@[i as int].1);
        }
        i = i + 1;
    }
    assert(r.subrange(0, i as int) =~= r);
    proof {
        lemma_run_words_len(r);
    }
    words
}

proof fn lemma_run_words_len(r: Seq<(u32, nat)>)
    ensures
        run_words(r).len() == 2 * r.len(),
    decreases r.len(),
{
    if r.len() > 0 {
        lemma_run_words_len(r.drop_last());
    }
}

/// The 1-based numbers of the sync samples, in order.
pub open spec fn sync_numbers(s: Seq<Sample>) -> Seq<u32>
    decreases s.len(),
{
    if s.len() == 0 {
        Seq::empty()
    } else {
        sync_numbers(s.drop_last()) + if s.last().sync { seq![s.len() as u32] } else { Seq::empty() }
    }
}

proof fn lemma_sync_len(s: Seq<Sample>)
    ensures
        sync_numbers(s).len() <= s.len(),
    decreases s.len(),
{
    if s.len() > 0 {
        lemma_sync_len(s.drop_last());
    }
}

/// The sample-to-chunk entries: the 1-based number of the first chunk of each run of
/// chunks with the same sample count, and that count.
pub open spec fn stsc_entries(counts: Seq<u32>) -> Seq<(u32, u32)>
    decreases counts.len(),
{
    if counts.len() == 0 {
        Seq::empty()
    } else {
        let r = stsc_entries(counts.drop_last());
        if r.len() > 0 && r.last().1 == counts.last() { r } else { r.push((counts.len() as u32, counts.last())) }
    }
}

/// Each entry as first chunk, samples per chunk, description index 1.
pub open spec fn stsc_words(e: Seq<(u32, u32)>) -> Seq<u32>
    decreases e.len(),
{
    if e.len() == 0 { Seq::empty() } else { stsc_words(e.drop_last()) + seq![e.last().0, e.last().1, 1u32] }
}

proof fn lemma_stsc_len(c: Seq<u32>)
    ensures
        stsc_entries(c).len() <= c.len(),
        stsc_words(stsc_entries(c)).len() == 3 * stsc_entries(c).len(),
    decreases c.len(),
{
    if c.len() > 0 {
        lemma_stsc_len(c.drop_last());
        let r = stsc_entries(c.drop_last());
        if !(r.len() > 0 && r.last().1 == c.last()) {
            assert(r.push((c.len() as u32, c.last())).drop_last() =~= r);
        }
    }
}

pub open spec fn counts(c: Seq<Chunk>) -> Seq<u32> {
    Seq::new(c.len(), |i: int| c[i].count)
}

/// Output offsets of the chunks, 32 bits each (the low bits).
pub open spec fn outs32(c: Seq<Chunk>) -> Seq<u32> {
    Seq::new(c.len(), |i: int| (c[i].out as nat % 0x1_0000_0000) as u32)
}

/// Output offsets of the chunks, 64 bits each.
pub open spec fn outs64(c: Seq<Chunk>) -> Seq<u8>
    decreases c.len(),
{
    if c.len() == 0 { Seq::empty() } else { outs64(c.drop_last()) + be64(c.last().out as nat) }
}

fn sync_table(s: &Vec<Sample>) -> (words: Vec<u32>)
    requires
        s.len() <= u32::MAX,
    ensures
        words@ == seq![sync_numbers(s@).len() as u32] + sync_numbers(s@),
{
    let mut nums: Vec<u32> = Vec::new();
    let mut i: usize = 0;
    while i < s.len()
        invariant
            i <= s.len(),
            s.len() <= u32::MAX,
            nums@ == sync_numbers(s@.subrange(0, i as int)),
        decreases s.len() - i,
    {
        proof {
            assert(s@.subrange(0, i + 1).drop_last() =~= s@.subrange(0, i as int));
        }
        if s[i].sync {
            nums.push((i + 1) as u32);
        }
        proof {
            assert(s@.subrange(0, i + 1).last() == s@[i as int]);
            if !s@[i as int].sync {
                assert(nums@ =~= sync_numbers(s@.subrange(0, i as int)) + Seq::<u32>::empty());
            }
        }
        i = i + 1;
    }
    assert(s@.subrange(0, i as int) =~= s@);
    proof {
        lemma_sync_len(s@);
    }
    let mut words: Vec<u32> = Vec::new();
    words.push(nums.len() as u32);
    let mut k: usize = 0;
    while k < nums.len()
        invariant
            k <= nums.len(),
            words@ == seq![nums@.len() as u32] + nums@.subrange(0, k as int),
        decreases nums.len() - k,
    {
        words.push(nums[k]);
        assert(nums@.subrange(0, k + 1) =~= nums@.subrange(0, k as int).push(nums@[k as int]));
        k = k + 1;
    }
    assert(nums@.subrange(0, k as int) =~= nums@);
    words
}

fn stsc_table(c: &Vec<Chunk>) -> (words: Vec<u32>)
    requires
        c.len() <= u32::MAX,
    ensures
        words@ == seq![stsc_entries(counts(c@)).len() as u32] + stsc_words(stsc_entries(counts(c@))),
        words@.len() <= 3 * c.len() + 1,
{
    let mut entries: Vec<(u32, u32)> = Vec::new();
    let mut i: usize = 0;
    while i < c.len()
        invariant
            i <= c.len(),
            c.len() <= u32::MAX,
            entries@ == stsc_entries(counts(c@).subrange(0, i as int)),
        decreases c.len() - i,
    {
        let ghost pre = counts(c@).subrange(0, i as int);
        proof {
            assert(counts(c@).subrange(0, i + 1).drop_last() =~= pre);
            assert(counts(c@).subrange(0, i + 1).last() == c@[i as int].count);
        }
        let n = entries.len();
        if n == 0 || entries[n - 1].1 != c[i].count {
            entries.push(((i + 1) as u32, c[i].count));
        }
        i = i + 1;
    }
    let ghost e = stsc_entries(counts(c@));
    assert(counts(c@).subrange(0, i as int) =~= counts(c@));
    proof {
        lemma_stsc_len(counts(c@));
    }
    let mut words: Vec<u32> = Vec::new();
    words.push(entries.len() as u32);
    let mut k: usize = 0;
    while k < entries.len()
        invariant
            k <= entries.len(),
            entries@ == e,
            words@ == seq![e.len() as u32] + stsc_words(e.subrange(0, k as int)),
        decreases entries.len() - k,
    {
        assert(e.subrange(0, k + 1).drop_last() =~= e.subrange(0, k as int));
        words.push(entries[k].0);
        words.push(entries[k].1);
        words.push(1);
        k = k + 1;
    }
    assert(e.subrange(0, k as int) =~= e);
    words
}

fn durs_of(s: &Vec<Sample>) -> (v: Vec<u32>)
    ensures
        v@ == durs(s@),
{
    let mut v: Vec<u32> = Vec::new();
    let mut i: usize = 0;
    while i < s.len()
        invariant
            i <= s.len(),
            v@ == durs(s@).subrange(0, i as int),
        decreases s.len() - i,
    {
        v.push(s[i].dur);
        assert(durs(s@).subrange(0, i + 1) =~= durs(s@).subrange(0, i as int).push(s@[i as int].dur));
        i = i + 1;
    }
    assert(durs(s@).subrange(0, i as int) =~= durs(s@));
    v
}

fn ctos_of(s: &Vec<Sample>) -> (v: Vec<u32>)
    ensures
        v@ == ctos(s@),
{
    let mut v: Vec<u32> = Vec::new();
    let mut i: usize = 0;
    while i < s.len()
        invariant
            i <= s.len(),
            v@ == ctos(s@).subrange(0, i as int),
        decreases s.len() - i,
    {
        v.push(#[verifier::truncate] (s[i].cto as u32));
        assert(ctos(s@).subrange(0, i + 1) =~= ctos(s@).subrange(0, i as int).push(s@[i as int].cto as u32));
        i = i + 1;
    }
    assert(ctos(s@).subrange(0, i as int) =~= ctos(s@));
    v
}

fn stsz_table(s: &Vec<Sample>) -> (v: Vec<u32>)
    requires
        s.len() <= u32::MAX,
    ensures
        v@ == seq![0u32, s.len() as u32] + sizes(s@),
{
    let mut v: Vec<u32> = Vec::new();
    v.push(0);
    v.push(s.len() as u32);
    let mut i: usize = 0;
    while i < s.len()
        invariant
            i <= s.len(),
            v@ == seq![0u32, s.len() as u32] + sizes(s@).subrange(0, i as int),
        decreases s.len() - i,
    {
        v.push(s[i].size);
        assert(sizes(s@).subrange(0, i + 1) =~= sizes(s@).subrange(0, i as int).push(s@[i as int].size));
        i = i + 1;
    }
    assert(sizes(s@).subrange(0, i as int) =~= sizes(s@));
    v
}

fn stco_table(c: &Vec<Chunk>) -> (v: Vec<u32>)
    requires
        c.len() <= u32::MAX,
    ensures
        v@ == seq![c.len() as u32] + outs32(c@),
{
    let mut v: Vec<u32> = Vec::new();
    v.push(c.len() as u32);
    let mut i: usize = 0;
    while i < c.len()
        invariant
            i <= c.len(),
            v@ == seq![c.len() as u32] + outs32(c@).subrange(0, i as int),
        decreases c.len() - i,
    {
        v.push((c[i].out % 0x1_0000_0000) as u32);
        assert(outs32(c@).subrange(0, i + 1) =~= outs32(c@).subrange(0, i as int).push((c@[i as int].out as nat % 0x1_0000_0000) as u32));
        i = i + 1;
    }
    assert(outs32(c@).subrange(0, i as int) =~= outs32(c@));
    v
}

fn co64_box(c: &Vec<Chunk>) -> (out: Vec<u8>)
    requires
        c.len() <= u32::MAX,
        8 * c.len() + 32 <= usize::MAX,
    ensures
        out@ == full_spec(fourcc("co64"@), 0, 0, be32(c.len() as nat) + outs64(c@)),
        out@.len() == 8 * c.len() + 16,
{
    let mut body: Vec<u8> = Vec::new();
    crate::media::bytes::push_be32(&mut body, c.len() as u32);
    let mut i: usize = 0;
    while i < c.len()
        invariant
            i <= c.len(),
            8 * c.len() + 32 <= usize::MAX,
            body@ == be32(c.len() as nat) + outs64(c@.subrange(0, i as int)),
            body@.len() == 4 + 8 * i,
        decreases c.len() - i,
    {
        assert(c@.subrange(0, i + 1).drop_last() =~= c@.subrange(0, i as int));
        push_be64(&mut body, c[i].out);
        i = i + 1;
    }
    assert(c@.subrange(0, i as int) =~= c@);
    let ghost bv = body@;
    let mut parts: Vec<Vec<u8>> = Vec::new();
    proof {
        assert(flatten(views(parts@)) =~= Seq::<u8>::empty());
    }
    push_part(&mut parts, body);
    assert(Seq::<u8>::empty() + bv =~= bv);
    let typ: [u8; 4] = [0x63, 0x6f, 0x36, 0x34];
    proof {
        reveal_strlit("co64");
        assert(typ@ =~= fourcc("co64"@));
    }
    let out = full_box(&typ, 0, 0, parts);
    proof {
        lemma_box_len(typ@, be32(vf_word(0, 0)) + bv);
    }
    out
}

pub open spec fn has_cto(s: Seq<Sample>) -> bool {
    exists|i: int| 0 <= i < s.len() && s[i].cto != 0
}

pub open spec fn has_negative_cto(s: Seq<Sample>) -> bool {
    exists|i: int| 0 <= i < s.len() && s[i].cto < 0
}

pub open spec fn stts_spec(s: Seq<Sample>) -> Seq<u8> {
    let rs = runs_of(durs(s));
    full_spec(fourcc("stts"@), 0, 0, w32_spec(seq![rs.len() as u32] + run_words(rs)))
}

/// Listed only when some sample is not a sync sample.
pub open spec fn stss_spec(s: Seq<Sample>) -> Seq<u8> {
    let sync = sync_numbers(s);
    if sync.len() != s.len() {
        full_spec(fourcc("stss"@), 0, 0, w32_spec(seq![sync.len() as u32] + sync))
    } else {
        Seq::empty()
    }
}

/// Listed only when some sample has a composition offset; version 1 when one is negative.
pub open spec fn ctts_spec(s: Seq<Sample>) -> Seq<u8> {
    let rc = runs_of(ctos(s));
    if has_cto(s) {
        full_spec(fourcc("ctts"@), if has_negative_cto(s) { 1u8 } else { 0u8 }, 0, w32_spec(seq![rc.len() as u32] + run_words(rc)))
    } else {
        Seq::empty()
    }
}

pub open spec fn stsc_spec(c: Seq<Chunk>) -> Seq<u8> {
    let e = stsc_entries(counts(c));
    full_spec(fourcc("stsc"@), 0, 0, w32_spec(seq![e.len() as u32] + stsc_words(e)))
}

pub open spec fn stsz_spec(s: Seq<Sample>) -> Seq<u8> {
    full_spec(fourcc("stsz"@), 0, 0, w32_spec(seq![0u32, s.len() as u32] + sizes(s)))
}

/// Chunk offsets: 64-bit (`co64`) or 32-bit (`stco`).
pub open spec fn offsets_spec(c: Seq<Chunk>, use64: bool) -> Seq<u8> {
    if use64 {
        full_spec(fourcc("co64"@), 0, 0, be32(c.len() as nat) + outs64(c))
    } else {
        full_spec(fourcc("stco"@), 0, 0, w32_spec(seq![c.len() as u32] + outs32(c)))
    }
}

/// The output sample table: the input's sample descriptions, then the tables built from
/// the samples and chunks.
pub open spec fn stbl_spec(t: TrackView, use64: bool) -> Seq<u8> {
    box_spec(fourcc("stbl"@), t.moov.subrange(t.stsd.start, t.stsd.end) + stts_spec(t.samples) + stss_spec(t.samples)
        + ctts_spec(t.samples) + stsc_spec(t.chunks) + stsz_spec(t.samples) + offsets_spec(t.chunks, use64))
}

/// The tables of the track fit in memory and their counts in 32 bits.
pub open spec fn tables_fit(t: TrackView) -> bool {
    &&& t.samples.len() <= u32::MAX
    &&& t.chunks.len() <= u32::MAX
    &&& t.moov.len() + 32 * t.samples.len() + 32 * t.chunks.len() + 1024 <= usize::MAX
}

fn cto_flags(s: &Vec<Sample>) -> (r: (bool, bool))
    ensures
        r.0 == has_cto(s@),
        r.1 == has_negative_cto(s@),
{
    let mut any = false;
    let mut neg = false;
    let mut i: usize = 0;
    while i < s.len()
        invariant
            i <= s.len(),
            any == exists|j: int| 0 <= j < i && s@[j].cto != 0,
            neg == exists|j: int| 0 <= j < i && s@[j].cto < 0,
        decreases s.len() - i,
    {
        if s[i].cto != 0 {
            any = true;
        }
        if s[i].cto < 0 {
            neg = true;
        }
        i = i + 1;
    }
    (any, neg)
}

fn stbl_body(t: &Track, use64: bool) -> (parts: Vec<Vec<u8>>)
    requires
        t.wf(),
        tables_fit(t@),
    ensures
        flatten(views(parts@)) == t@.moov.subrange(t@.stsd.start, t@.stsd.end) + stts_spec(t@.samples)
            + stss_spec(t@.samples) + ctts_spec(t@.samples) + stsc_spec(t@.chunks) + stsz_spec(t@.samples)
            + offsets_spec(t@.chunks, use64),
        flatten(views(parts@)).len() <= t.moov.len() + 32 * t.samples.len() + 32 * t.chunks.len() + 128,
{
    let s = &t.samples;
    let c = &t.chunks;
    let ghost sv = s@;
    let ghost cv = c@;
    proof {
        reveal_strlit("stts");
        reveal_strlit("stss");
        reveal_strlit("ctts");
        reveal_strlit("stsc");
        reveal_strlit("stsz");
        reveal_strlit("stco");
        lemma_sync_len(sv);
        lemma_stsc_len(counts(cv));
    }
    let mut parts: Vec<Vec<u8>> = Vec::new();
    proof {
        assert(flatten(views(parts@)) =~= Seq::<u8>::empty());
    }
    let stsd = to_vec(&t.moov.as_slice()[t.stsd.start..t.stsd.end]);
    let ghost p0 = stsd@;
    assert(p0 =~= t@.moov.subrange(t@.stsd.start, t@.stsd.end));
    push_part(&mut parts, stsd);
    assert(Seq::<u8>::empty() + p0 =~= p0);

    let stts_typ: [u8; 4] = [0x73, 0x74, 0x74, 0x73];
    assert(stts_typ@ =~= fourcc("stts"@));
    let d = durs_of(s);
    let stts = words_box(stts_typ, 0, &runs_table(&d));
    push_part(&mut parts, stts);
    assert(flatten(views(parts@)) == p0 + stts_spec(sv));

    let sync = sync_table(s);
    if sync.len() - 1 != s.len() {
        let stss_typ: [u8; 4] = [0x73, 0x74, 0x73, 0x73];
        assert(stss_typ@ =~= fourcc("stss"@));
        push_part(&mut parts, words_box(stss_typ, 0, &sync));
    } else {
        assert(p0 + stts_spec(sv) + stss_spec(sv) =~= p0 + stts_spec(sv));
    }
    assert(flatten(views(parts@)) == p0 + stts_spec(sv) + stss_spec(sv));

    let (any, neg) = cto_flags(s);
    if any {
        let ctts_typ: [u8; 4] = [0x63, 0x74, 0x74, 0x73];
        assert(ctts_typ@ =~= fourcc("ctts"@));
        let v: u8 = if neg { 1 } else { 0 };
        let cw = ctos_of(s);
        push_part(&mut parts, words_box(ctts_typ, v, &runs_table(&cw)));
    } else {
        assert(p0 + stts_spec(sv) + stss_spec(sv) + ctts_spec(sv) =~= p0 + stts_spec(sv) + stss_spec(sv));
    }
    assert(flatten(views(parts@)) == p0 + stts_spec(sv) + stss_spec(sv) + ctts_spec(sv));

    let stsc_typ: [u8; 4] = [0x73, 0x74, 0x73, 0x63];
    assert(stsc_typ@ =~= fourcc("stsc"@));
    push_part(&mut parts, words_box(stsc_typ, 0, &stsc_table(c)));
    let stsz_typ: [u8; 4] = [0x73, 0x74, 0x73, 0x7a];
    assert(stsz_typ@ =~= fourcc("stsz"@));
    push_part(&mut parts, words_box(stsz_typ, 0, &stsz_table(s)));
    if use64 {
        push_part(&mut parts, co64_box(c));
    } else {
        let stco_typ: [u8; 4] = [0x73, 0x74, 0x63, 0x6f];
        assert(stco_typ@ =~= fourcc("stco"@));
        push_part(&mut parts, words_box(stco_typ, 0, &stco_table(c)));
    }
    parts
}

/// Builds the output sample table of a track.
pub fn build_stbl(t: &Track, use64: bool) -> (out: Vec<u8>)
    requires
        t.wf(),
        tables_fit(t@),
    ensures
        out@ == stbl_spec(t@, use64),
        out@.len() <= t.moov.len() + 32 * t.samples.len() + 32 * t.chunks.len() + 136,
{
    let parts = stbl_body(t, use64);
    let ghost body = flatten(views(parts@));
    let typ: [u8; 4] = [0x73, 0x74, 0x62, 0x6c];
    proof {
        reveal_strlit("stbl");
        assert(typ@ =~= fourcc("stbl"@));
    }
    let out = bx(&typ, parts);
    proof {
        lemma_box_len(typ@, body);
    }
    out
}

} // verus!
