//! AAC audio in an M4A: ADTS headers and the AudioSpecificConfig of the `esds` box.

use vstd::prelude::*;
use crate::media::mp4::boxes::{Mp4Error, Span, u32_spec, u32_in, children, children_spec, first_of, first_index, spans};
use crate::media::mp4::track::{Track, TrackView, Sample, body_of, lemma_span_end, read_track, track_spec, moofs_view};
use crate::media::mp4::mux::{MuxInput, input_ok, input_fits};
use crate::media::bytes::{to_vec, extend};

verus! {

/// Sample rates by ADTS frequency index.
pub const ADTS_RATES: [u32; 13] = [96000, 88200, 64000, 48000, 44100, 32000, 24000, 22050, 16000, 12000, 11025, 8000, 7350];

/// The 7-byte ADTS header (MPEG-4, no CRC) of an AAC frame of `payload` bytes: sync word,
/// profile, frequency index, channel configuration and the 13-bit frame length, which
/// counts the header too.
pub open spec fn adts_spec(profile: u8, freq_index: u8, channels: u8, payload: nat) -> Seq<u8> {
    let len = payload + 7;
    seq![
        0xffu8,
        0xf1u8,
        (profile << 6u8) | (freq_index << 2u8) | (channels >> 2u8),
        ((channels % 4) * 64 + len / 2048 % 4) as u8,
        (len / 8 % 256) as u8,
        ((len % 8) * 32 + 31) as u8,
        0xfcu8,
    ]
}

/// The frame length an ADTS header carries is the payload's plus the 7 header bytes (for
/// frames that fit its 13 bits).
pub proof fn lemma_adts_length(profile: u8, freq_index: u8, channels: u8, payload: nat)
    requires
        payload + 7 < 8192,
    ensures
        ({
            let h = adts_spec(profile, freq_index, channels, payload);
            (h[3] as nat % 4) * 2048 + (h[4] as nat) * 8 + (h[5] as nat) / 32 == payload + 7
        }),
{
    let len = payload + 7;
    let c = (channels % 4) as nat;
    let h3 = c * 64 + len / 2048 % 4;
    let h4 = len / 8 % 256;
    let h5 = (len % 8) * 32 + 31;
    assert(h3 < 256 && h3 % 4 == len / 2048 && h4 == len / 8 % 256 && h5 / 32 == len % 8
        && (len / 2048) * 2048 + (len / 8 % 256) * 8 + len % 8 == len) by (nonlinear_arith)
        requires
            len < 8192,
            c < 4,
            h3 == c * 64 + len / 2048 % 4,
            h4 == len / 8 % 256,
            h5 == (len % 8) * 32 + 31,
    ;
    let h = adts_spec(profile, freq_index, channels, payload);
    assert(h[3] as nat == h3 && h[4] as nat == h4 && h[5] as nat == h5);
}

/// ADTS header for one AAC frame of `payload` bytes.
pub fn adts_header(profile: u8, freq_index: u8, channels: u8, payload: usize) -> (h: [u8; 7])
    requires
        payload + 7 <= usize::MAX,
    ensures
        h@ == adts_spec(profile, freq_index, channels, payload as nat),
{
    let len = payload + 7;
    let b3 = ((channels & 3) << 6) | ((len >> 11) & 3) as u8;
    let b4 = ((len >> 3) & 0xff) as u8;
    let b5 = (((len & 7) << 5) as u8) | 0x1f;
    assert(b3 == (channels % 4) * 64 + len / 2048 % 4) by (bit_vector)
        requires b3 == ((channels & 3) << 6) | ((len >> 11) & 3) as u8;
    assert(b4 == len / 8 % 256) by (bit_vector)
        requires b4 == ((len >> 3) & 0xff) as u8;
    assert(b5 == (len % 8) * 32 + 31) by (bit_vector)
        requires b5 == (((len & 7) << 5) as u8) | 0x1f;
    let h = [0xff, 0xf1, (profile << 6) | (freq_index << 2) | (channels >> 2), b3, b4, b5, 0xfc];
    assert(h@ =~= adts_spec(profile, freq_index, channels, payload as nat));
    h
}

/// A descriptor length: up to four bytes of 7 bits each, a set high bit meaning that
/// another byte follows. Gives the length and the position after it, or `None` when the
/// bytes run out.
pub open spec fn desc_len(b: Seq<u8>, pos: int, n: nat, acc: nat) -> Option<(nat, int)>
    decreases 4 - n,
{
    if n >= 4 {
        Some((acc, pos))
    } else if pos < 0 || pos >= b.len() {
        None
    } else {
        let acc2 = acc * 128 + b[pos] as nat % 128;
        if b[pos] < 128 { Some((acc2, pos + 1)) } else { desc_len(b, pos + 1, n + 1, acc2) }
    }
}

pub proof fn lemma_desc_len(b: Seq<u8>, pos: int, n: nat, acc: nat)
    requires
        n <= 4,
    ensures
        desc_len(b, pos, n, acc) matches Some((len, p)) ==> p >= pos && (n < 4 ==> p > pos)
            && (acc < pow128(n) ==> len < pow128(4)),
    decreases 4 - n,
{
    if n < 4 && 0 <= pos < b.len() {
        let acc2 = acc * 128 + b[pos] as nat % 128;
        if acc < pow128(n) {
            assert(acc2 < pow128((n + 1) as nat)) by (nonlinear_arith)
                requires acc2 == acc * 128 + b[pos] as nat % 128, acc < pow128(n),
                    pow128((n + 1) as nat) == pow128(n) * 128;
            lemma_pow128_mono((n + 1) as nat);
        }
        if b[pos] >= 128 {
            lemma_desc_len(b, pos + 1, n + 1, acc2);
        }
    }
}

pub open spec fn pow128(n: nat) -> nat
    decreases n,
{
    if n == 0 { 1 } else { 128 * pow128((n - 1) as nat) }
}

proof fn lemma_pow128_mono(n: nat)
    requires
        n <= 4,
    ensures
        pow128(n) <= pow128(4),
        pow128(4) == 0x1000_0000,
    decreases 4 - n,
{
    reveal_with_fuel(pow128, 5);
    if n < 4 {
        lemma_pow128_mono(n + 1);
    }
}

/// Walks the nested descriptors of an `esds` box from `pos` up to `end`: the ES descriptor
/// (tag 3, then ES_ID and flags) holds the decoder configuration (tag 4, then 13 bytes of
/// type, stream, buffer and rates), which holds the decoder-specific information (tag 5):
/// the AudioSpecificConfig. Other descriptors are skipped.
pub open spec fn walk_spec(b: Seq<u8>, pos: int, end: int) -> Option<Seq<u8>>
    decreases end - pos,
{
    if pos >= end || pos < 0 || pos >= b.len() {
        None
    } else {
        let tag = b[pos];
        match desc_len(b, pos + 1, 0, 0) {
            None => None,
            Some((len, p)) => {
                proof {
                    lemma_desc_len(b, pos + 1, 0, 0);
                }
                let body_end = if p + len < end { p + len } else { end };
                if tag == 3 {
                    if p + 3 >= body_end { None } else { walk_spec(b, p + 3, body_end) }
                } else if tag == 4 {
                    if p + 13 >= body_end { None } else { walk_spec(b, p + 13, body_end) }
                } else if tag == 5 {
                    if p <= body_end && body_end <= b.len() { Some(b.subrange(p, body_end)) } else { None }
                } else {
                    walk_spec(b, body_end, end)
                }
            }
        }
    }
}

fn read_len(b: &[u8], pos: usize) -> (r: Option<(usize, usize)>)
    ensures
        match desc_len(b@, pos as int, 0, 0) {
            Some((len, p)) => r == Some((len as usize, p as usize)) && len == len as usize && p == p as usize,
            None => r is None,
        },
{
    let mut len: usize = 0;
    let mut p = pos;
    let mut n: usize = 0;
    proof {
        reveal_with_fuel(pow128, 5);
    }
    while n < 4
        invariant
            n <= 4,
            p == pos + n,
            len < pow128(n as nat),
            pow128(4) == 0x1000_0000,
            desc_len(b@, pos as int, 0, 0) == desc_len(b@, p as int, n as nat, len as nat),
        decreases 4 - n,
    {
        if p >= b.len() {
            return None;
        }
        let byte = b[p];
        proof {
            lemma_pow128_mono((n + 1) as nat);
            assert(len * 128 + byte as nat % 128 < pow128((n + 1) as nat)) by (nonlinear_arith)
                requires len < pow128(n as nat), pow128((n + 1) as nat) == pow128(n as nat) * 128;
        }
        len = len * 128 + (byte % 128) as usize;
        p = p + 1;
        n = n + 1;
        if byte < 128 {
            return Some((len, p));
        }
    }
    Some((len, p))
}

fn walk(b: &[u8], pos: usize, end: usize) -> (r: Option<Vec<u8>>)
    ensures
        match walk_spec(b@, pos as int, end as int) {
            Some(s) => r matches Some(v) && v@ == s,
            None => r is None,
        },
    decreases end - pos,
{
    if pos >= end || pos >= b.len() {
        return None;
    }
    let tag = b[pos];
    proof {
        lemma_desc_len(b@, pos + 1, 0, 0);
        reveal_with_fuel(pow128, 5);
    }
    match read_len(b, pos + 1) {
        None => None,
        Some((len, p)) => {
            let body_end = if len < end && p < end - len { p + len } else { end };
            if tag == 3 {
                if p >= body_end || body_end - p <= 3 {
                    None
                } else {
                    walk(b, p + 3, body_end)
                }
            } else if tag == 4 {
                if p >= body_end || body_end - p <= 13 {
                    None
                } else {
                    walk(b, p + 13, body_end)
                }
            } else if tag == 5 {
                if p <= body_end && body_end <= b.len() {
                    let v = crate::media::bytes::to_vec(&b[p..body_end]);
                    Some(v)
                } else {
                    None
                }
            } else {
                walk(b, body_end, end)
            }
        }
    }
}

/// The AudioSpecificConfig of an `esds` box, after its version and flags.
pub open spec fn asc_spec(esds: Seq<u8>) -> Option<Seq<u8>> {
    walk_spec(esds, 4, esds.len() as int)
}

/// Reads the AudioSpecificConfig from the contents of an `esds` box.
pub fn audio_specific_config(esds: &[u8]) -> (r: Option<Vec<u8>>)
    ensures
        match asc_spec(esds@) {
            Some(s) => r matches Some(v) && v@ == s,
            None => r is None,
        },
{
    walk(esds, 4, esds.len())
}

pub open spec fn rate_of(i: u8) -> u32 {
    seq![96000u32, 88200, 64000, 48000, 44100, 32000, 24000, 22050, 16000, 12000, 11025, 8000, 7350][i as int]
}

/// Audio object type, frequency index and channel configuration of an AudioSpecificConfig.
pub open spec fn asc_fields(asc: Seq<u8>) -> (u8, u8, u8) {
    (asc[0] >> 3u8, ((asc[0] & 7u8) << 1u8) | (asc[1] >> 7u8), (asc[1] >> 3u8) & 0x0fu8)
}

pub open spec fn mp4a() -> Seq<u8> { seq![0x6du8, 0x70, 0x34, 0x61] }
pub open spec fn esds4() -> Seq<u8> { seq![0x65u8, 0x73, 0x64, 0x73] }

/// The AudioSpecificConfig of an AAC track and its fields: from the `esds` box of the first
/// sample description (after its 8-byte header and 28 bytes of audio fields). Only AAC
/// Main, LC, SSR and LTP with 1 to 7 channels and a standard rate are taken.
pub open spec fn aac_spec(t: TrackView) -> Result<(Seq<u8>, u8, u8, u8), Mp4Error> {
    let m = t.moov;
    let entry = body_of(t.stsd) + 8;
    if t.fourcc != mp4a() {
        Err(Mp4Error::NotAac)
    } else if entry + 4 > m.len() {
        Err(Mp4Error::OutOfRange)
    } else {
        let entry_end = if entry + u32_spec(m, entry) < m.len() { entry + u32_spec(m, entry) } else { m.len() as int };
        match children_spec(m, entry + 36, entry_end) {
            Err(e) => Err(e),
            Ok(kids) => match first_of(kids, esds4()) {
                None => Err(Mp4Error::NoEsds),
                Some(i) => match asc_spec(m.subrange(body_of(kids[i]), kids[i].end)) {
                    None => Err(Mp4Error::BadAudioConfig),
                    Some(asc) => if asc.len() < 2 {
                        Err(Mp4Error::AudioConfigTooShort)
                    } else {
                        let (ot, fi, ch) = asc_fields(asc);
                        if !(1 <= ot <= 4) || fi >= 13 || ch == 0 || ch > 7 {
                            Err(Mp4Error::UnsupportedProfile(ot, ch))
                        } else {
                            Ok((asc, ot, fi, ch))
                        }
                    },
                },
            },
        }
    }
}

/// The AAC audio of an M4A, ready to be read frame by frame.
pub struct AacStream {
    /// AudioSpecificConfig (the codec's 2+ configuration bytes)
    pub asc: Vec<u8>,
    pub object_type: u8,
    pub freq_index: u8,
    pub channels: u8,
    pub sample_rate: u32,
    pub track: Track,
}

impl AacStream {
    pub open spec fn wf(&self) -> bool {
        &&& 1 <= self.object_type <= 4
        &&& self.freq_index < 13
        &&& 1 <= self.channels <= 7
        &&& self.sample_rate == rate_of(self.freq_index)
        &&& self.track.wf()
    }

    /// The AAC stream of an M4A, read from its boxes (boxes too large for this machine give
    /// `Overflow`).
    pub fn open_input(input: &MuxInput) -> (r: Result<AacStream, Mp4Error>)
        ensures
            !input_ok(*input) ==> r == Err::<AacStream, Mp4Error>(Mp4Error::Overflow),
            input_ok(*input) ==> match track_spec(input.moov@, moofs_view(input.moofs@), input.size) {
                Err(e) => r == Err::<AacStream, Mp4Error>(e),
                Ok(tv) => match aac_spec(tv) {
                    Ok((asc, ot, fi, ch)) => r matches Ok(a) && a.asc@ == asc && a.object_type == ot
                        && a.freq_index == fi && a.channels == ch && a.sample_rate == rate_of(fi) && a.track@ == tv && a.wf(),
                    Err(e) => r == Err::<AacStream, Mp4Error>(e),
                },
            },
    {
        if !input_fits(input) {
            return Err(Mp4Error::Overflow);
        }
        let moov = input.moov.clone();
        assert(moov@ =~= input.moov@);
        let track = read_track(moov, &input.moofs, input.size)?;
        AacStream::open(track)
    }

    /// The AAC stream of a track read from an M4A.
    pub fn open(track: Track) -> (r: Result<AacStream, Mp4Error>)
        requires
            track.wf(),
        ensures
            match aac_spec(track@) {
                Ok((asc, ot, fi, ch)) => r matches Ok(a) && a.asc@ == asc && a.object_type == ot
                    && a.freq_index == fi && a.channels == ch && a.sample_rate == rate_of(fi) && a.track@ == track@ && a.wf(),
                Err(e) => r matches Err(x) && x == e,
            },
    {
        let f = track.fourcc;
        if !(f[0] == 0x6d && f[1] == 0x70 && f[2] == 0x34 && f[3] == 0x61) {
            assert(f@ != mp4a()) by {
                if f@ == mp4a() {
                    assert(f@[0] == 0x6d && f@[1] == 0x70 && f@[2] == 0x34 && f@[3] == 0x61);
                }
            }
            return Err(Mp4Error::NotAac);
        }
        assert(f@ =~= mp4a());
        let m = track.moov.as_slice();
        let entry = track.stsd.body + 8;
        if entry > m.len() || m.len() - entry < 4 {
            return Err(Mp4Error::OutOfRange);
        }
        let size = u32_in(m, entry) as usize;
        let entry_end = if size < m.len() - entry { entry + size } else { m.len() };
        let kids = children(m, entry + 36, entry_end)?;
        let esds_typ: [u8; 4] = [0x65, 0x73, 0x64, 0x73];
        assert(esds_typ@ =~= esds4());
        let i = match first_index(&kids, &esds_typ) {
            Some(i) => i,
            None => {
                return Err(Mp4Error::NoEsds);
            }
        };
        proof {
            assert(kids@[i as int].wf());
            assert(spans(kids@)[i as int] == kids@[i as int].span());
            lemma_span_end(m@, entry + 36, entry_end as int, i as int);
        }
        let es = kids[i];
        let body = &m[es.body..es.end];
        assert(body@ =~= m@.subrange(es.body as int, es.end as int));
        let asc = match audio_specific_config(body) {
            Some(a) => a,
            None => {
                return Err(Mp4Error::BadAudioConfig);
            }
        };
        if asc.len() < 2 {
            return Err(Mp4Error::AudioConfigTooShort);
        }
        let object_type = asc[0] >> 3;
        let freq_index = ((asc[0] & 7) << 1) | (asc[1] >> 7);
        let channels = (asc[1] >> 3) & 0x0f;
        if !(1 <= object_type && object_type <= 4) || freq_index >= 13 || channels == 0 || channels > 7 {
            return Err(Mp4Error::UnsupportedProfile(object_type, channels));
        }
        let sample_rate = ADTS_RATES[freq_index as usize];
        assert(sample_rate == rate_of(freq_index)) by {
            assert(ADTS_RATES@ =~= seq![96000u32, 88200, 64000, 48000, 44100, 32000, 24000, 22050, 16000, 12000, 11025, 8000, 7350]);
        }
        Ok(AacStream { asc, object_type, freq_index, channels, sample_rate, track })
    }
}

/// The frames of a chunk read into `buf`: `count` samples from sample `idx` on, laid end to
/// end from `pos`.
pub open spec fn frames_spec(s: Seq<Sample>, buf: Seq<u8>, idx: int, pos: int, count: nat) -> Result<Seq<Seq<u8>>, Mp4Error>
    decreases count,
{
    if count == 0 {
        Ok(Seq::empty())
    } else if idx < 0 || idx >= s.len() {
        Err(Mp4Error::SampleTable)
    } else if pos + s[idx].size > buf.len() {
        Err(Mp4Error::FrameOutOfRange)
    } else {
        match frames_spec(s, buf, idx + 1, pos + s[idx].size, (count - 1) as nat) {
            Err(e) => Err(e),
            Ok(rest) => Ok(seq![buf.subrange(pos, pos + s[idx].size)] + rest),
        }
    }
}

impl AacStream {
    /// The AAC frames of chunk `ci`, whose bytes are `buf`; `first` is the index of the
    /// chunk's first sample.
    pub fn chunk_frames(&self, ci: usize, first: usize, buf: &[u8]) -> (r: Result<Vec<Vec<u8>>, Mp4Error>)
        requires
            ci < self.track.chunks.len(),
        ensures
            match frames_spec(self.track.samples@, buf@, first as int, 0, self.track.chunks@[ci as int].count as nat) {
                Ok(fs) => r matches Ok(v) && v@.len() == fs.len() && forall|k: int| 0 <= k < fs.len() ==> #[trigger] v@[k]@ == fs[k],
                Err(e) => r matches Err(x) && x == e,
            },
    {
        let count = self.track.chunks[ci].count;
        let s = &self.track.samples;
        let ghost whole = frames_spec(s@, buf@, first as int, 0, count as nat);
        let mut out: Vec<Vec<u8>> = Vec::new();
        let mut k: u32 = 0;
        let mut idx = first;
        let mut pos: usize = 0;
        assert(whole matches Ok(fs) ==> Seq::<Seq<u8>>::empty() + fs =~= fs);
        while k < count
            invariant
                k <= count,
                ci < self.track.chunks.len(),
                s@ == self.track.samples@,
                count == self.track.chunks@[ci as int].count,
                idx == first + k,
                pos <= buf.len(),
                whole == frames_spec(s@, buf@, first as int, 0, count as nat),
                match frames_spec(s@, buf@, idx as int, pos as int, (count - k) as nat) {
                    Ok(rest) => whole matches Ok(fs) && fs == Seq::new(out@.len(), |j: int| out@[j]@) + rest,
                    Err(e) => whole == Err::<Seq<Seq<u8>>, Mp4Error>(e),
                },
            decreases count - k,
        {
            if idx >= s.len() {
                return Err(Mp4Error::SampleTable);
            }
            let size = s[idx].size as usize;
            if size > buf.len() - pos {
                return Err(Mp4Error::FrameOutOfRange);
            }
            let f = to_vec(&buf[pos..pos + size]);
            let ghost before = out@;
            out.push(f);
            proof {
                assert(buf@.subrange(pos as int, pos + size) == f@);
                match frames_spec(s@, buf@, idx + 1, pos + size, (count - k - 1) as nat) {
                    Ok(rest) => {
                        assert(Seq::new(out@.len(), |j: int| out@[j]@) =~= Seq::new(before.len(), |j: int| before[j]@).push(f@));
                        assert(Seq::new(before.len(), |j: int| before[j]@) + (seq![f@] + rest)
                            =~= Seq::new(out@.len(), |j: int| out@[j]@) + rest);
                    }
                    Err(_) => {}
                }
            }
            idx = idx + 1;
            pos = pos + size;
            k = k + 1;
        }
        proof {
            let fs = whole->Ok_0;
            assert(Seq::new(out@.len(), |j: int| out@[j]@) + Seq::<Seq<u8>>::empty() =~= Seq::new(out@.len(), |j: int| out@[j]@));
        }
        Ok(out)
    }

    /// A frame with its ADTS header, as it goes into a raw `.aac` file.
    pub fn adts_frame(&self, frame: &[u8]) -> (out: Vec<u8>)
        requires
            self.wf(),
            frame.len() + 7 <= usize::MAX,
        ensures
            out@ == adts_spec((self.object_type - 1) as u8, self.freq_index, self.channels, frame.len() as nat) + frame@,
    {
        let h = adts_header(self.object_type - 1, self.freq_index, self.channels, frame.len());
        let mut out: Vec<u8> = Vec::new();
        extend(&mut out, &h);
        extend(&mut out, frame);
        out
    }
}

} // verus!
