//! WAV writer (16-bit PCM) with LIST/INFO tags.

use vstd::prelude::*;
use crate::media::bytes::{le16, le32, le16_value, le32_value, lemma_le16_roundtrip, lemma_le32_roundtrip, push_le16, push_le32, extend};
use crate::media::flac::utf8;
use crate::media::pcm::{PcmFormat, PcmSink, SinkEnd};
use crate::media::tags::Tags;

verus! {

/// An INFO sub-chunk: id, length, the text with a terminating zero, padded to even length.
pub open spec fn info_chunk_spec(id: Seq<u8>, text: Seq<char>) -> Seq<u8> {
    let data = utf8(text).push(0u8);
    id + le32(data.len() % 0x1_0000_0000) + data + if data.len() % 2 == 1 { seq![0u8] } else { Seq::empty() }
}

pub fn info_chunk(id: &[u8; 4], text: &str) -> (c: Vec<u8>)
    ensures
        c@ == info_chunk_spec(id@, text@),
{
    let mut data: Vec<u8> = Vec::new();
    extend(&mut data, text.as_bytes());
    data.push(0);
    let mut chunk: Vec<u8> = Vec::new();
    extend(&mut chunk, id);
    push_le32(&mut chunk, (data.len() as u64 % 0x1_0000_0000) as u32);
    extend(&mut chunk, data.as_slice());
    if data.len() % 2 == 1 {
        chunk.push(0); // RIFF chunks are aligned to 2 bytes
    }
    assert(chunk@ =~= info_chunk_spec(id@, text@));
    chunk
}

/// "LIST" chunk of type "INFO": title, artist, album and year.
pub open spec fn list_info_spec(t: Tags) -> Seq<u8> {
    let body = seq![0x49u8, 0x4E, 0x46, 0x4F]
        + info_chunk_spec(seq![0x49u8, 0x4E, 0x41, 0x4D], t.title@)
        + info_chunk_spec(seq![0x49u8, 0x41, 0x52, 0x54], t.artist@)
        + (if let Some(a) = t.album { info_chunk_spec(seq![0x49u8, 0x50, 0x52, 0x44], a@) } else { Seq::empty() })
        + (if let Some(y) = t.year { info_chunk_spec(seq![0x49u8, 0x43, 0x52, 0x44], y@) } else { Seq::empty() });
    seq![0x4Cu8, 0x49, 0x53, 0x54] + le32(body.len() % 0x1_0000_0000) + body
}

pub fn list_info(t: &Tags) -> (out: Vec<u8>)
    ensures
        out@ == list_info_spec(*t),
{
    let mut body: Vec<u8> = Vec::new();
    body.push(0x49);
    body.push(0x4E);
    body.push(0x46);
    body.push(0x4F); // "INFO"
    let c = info_chunk(&[0x49, 0x4E, 0x41, 0x4D], t.title.as_str()); // INAM
    extend(&mut body, c.as_slice());
    let c = info_chunk(&[0x49, 0x41, 0x52, 0x54], t.artist.as_str()); // IART
    extend(&mut body, c.as_slice());
    let ghost b1 = body@;
    if let Some(a) = &t.album {
        let c = info_chunk(&[0x49, 0x50, 0x52, 0x44], a.as_str()); // IPRD
        extend(&mut body, c.as_slice());
    }
    let ghost b2 = body@;
    if let Some(y) = &t.year {
        let c = info_chunk(&[0x49, 0x43, 0x52, 0x44], y.as_str()); // ICRD
        extend(&mut body, c.as_slice());
    }
    proof {
        let ea = if let Some(a) = &t.album { info_chunk_spec(seq![0x49u8, 0x50, 0x52, 0x44], a@) } else { Seq::empty() };
        let ey = if let Some(y) = &t.year { info_chunk_spec(seq![0x49u8, 0x43, 0x52, 0x44], y@) } else { Seq::empty() };
        assert([0x49u8, 0x4E, 0x41, 0x4D]@ =~= seq![0x49u8, 0x4E, 0x41, 0x4D]);
        assert([0x49u8, 0x41, 0x52, 0x54]@ =~= seq![0x49u8, 0x41, 0x52, 0x54]);
        assert([0x49u8, 0x50, 0x52, 0x44]@ =~= seq![0x49u8, 0x50, 0x52, 0x44]);
        assert([0x49u8, 0x43, 0x52, 0x44]@ =~= seq![0x49u8, 0x43, 0x52, 0x44]);
        assert(b2 =~= b1 + ea);
        assert(body@ =~= b2 + ey);
    }
    let mut out: Vec<u8> = Vec::new();
    out.push(0x4C);
    out.push(0x49);
    out.push(0x53);
    out.push(0x54); // "LIST"
    push_le32(&mut out, (body.len() as u64 % 0x1_0000_0000) as u32);
    extend(&mut out, body.as_slice());
    assert(out@ =~= list_info_spec(*t));
    out
}

/// The WAV header: RIFF (size patched at the end), "fmt " for 16-bit PCM, the tags and the
/// start of the "data" chunk (size patched at the end).
pub open spec fn wav_header_spec(f: PcmFormat, tags: Option<Tags>) -> Seq<u8> {
    fmt_header_spec(f)
        + (if let Some(t) = tags { list_info_spec(t) } else { Seq::empty() })
        + seq![0x64u8, 0x61, 0x74, 0x61] + le32(0)
}

/// A WAV header says what the samples are: PCM (format 1), the channels, the rate, 16 bits a
/// sample, a block of 2 bytes a channel, and a byte rate of the rate times the block.
pub proof fn lemma_wav_fmt_reads_back(f: PcmFormat, tags: Option<Tags>)
    requires
        f.sample_rate as nat * f.channels as nat * 2 <= u32::MAX,
    ensures
        ({
            let h = wav_header_spec(f, tags);
            &&& h.subrange(0, 4) == seq![0x52u8, 0x49, 0x46, 0x46]
            &&& h.subrange(8, 16) == seq![0x57u8, 0x41, 0x56, 0x45, 0x66, 0x6D, 0x74, 0x20]
            &&& le32_value(h.subrange(16, 20)) == 16
            &&& h.subrange(h.len() - 8, h.len() - 4) == seq![0x64u8, 0x61, 0x74, 0x61]
            &&& le16_value(h.subrange(20, 22)) == 1
            &&& le16_value(h.subrange(22, 24)) == f.channels
            &&& le32_value(h.subrange(24, 28)) == f.sample_rate
            &&& le16_value(h.subrange(32, 34)) == 2 * f.channels
            &&& le16_value(h.subrange(34, 36)) == 16
            &&& le32_value(h.subrange(28, 32)) == le32_value(h.subrange(24, 28)) * le16_value(h.subrange(32, 34))
        }),
{
    let ch = f.channels as nat;
    let rate = f.sample_rate as nat;
    let h = wav_header_spec(f, tags);
    lemma_le32_roundtrip(0);
    lemma_le32_roundtrip(16);
    lemma_le16_roundtrip(1);
    lemma_le16_roundtrip(ch as u16);
    lemma_le32_roundtrip(rate as u32);
    lemma_le32_roundtrip((rate * ch * 2) as u32);
    lemma_le16_roundtrip((ch * 2) as u16);
    lemma_le16_roundtrip(16);
    assert(h.subrange(0, 4) =~= seq![0x52u8, 0x49, 0x46, 0x46]);
    assert(h.subrange(8, 16) =~= seq![0x57u8, 0x41, 0x56, 0x45, 0x66, 0x6D, 0x74, 0x20]);
    assert(h.subrange(16, 20) =~= le32(16));
    assert(h.subrange(h.len() - 8, h.len() - 4) =~= seq![0x64u8, 0x61, 0x74, 0x61]);
    assert(h.subrange(20, 22) =~= le16(1));
    assert(h.subrange(22, 24) =~= le16(ch));
    assert(h.subrange(24, 28) =~= le32(rate));
    assert(h.subrange(28, 32) =~= le32(rate * ch * 2));
    assert(h.subrange(32, 34) =~= le16(ch * 2));
    assert(h.subrange(34, 36) =~= le16(16));
    assert(rate * ch * 2 == rate * (2 * ch)) by (nonlinear_arith);
}

fn push4(v: &mut Vec<u8>, a: u8, b: u8, c: u8, d: u8)
    ensures
        final(v)@ == old(v)@ + seq![a, b, c, d],
{
    v.push(a);
    v.push(b);
    v.push(c);
    v.push(d);
    assert(v@ =~= old(v)@ + seq![a, b, c, d]);
}

pub open spec fn fmt_header_spec(f: PcmFormat) -> Seq<u8> {
    let ch = f.channels as nat;
    let rate = f.sample_rate as nat;
    seq![0x52u8, 0x49, 0x46, 0x46] + le32(0)
        + seq![0x57u8, 0x41, 0x56, 0x45, 0x66, 0x6D, 0x74, 0x20] + le32(16) + le16(1) + le16(ch)
        + le32(rate) + le32(rate * ch * 2) + le16(ch * 2) + le16(16)
}

fn fmt_header(f: PcmFormat) -> (h: Vec<u8>)
    requires
        f.sample_rate as nat * f.channels as nat * 2 <= u32::MAX,
    ensures
        h@ == fmt_header_spec(f),
{
    let ch = f.channels as u32;
    let rate = f.sample_rate;
    let mut h: Vec<u8> = Vec::new();
    push4(&mut h, 0x52, 0x49, 0x46, 0x46); // "RIFF"
    push_le32(&mut h, 0); // size: patched when finished
    let ghost a = h@;
    push4(&mut h, 0x57, 0x41, 0x56, 0x45); // "WAVE"
    push4(&mut h, 0x66, 0x6D, 0x74, 0x20); // "fmt "
    assert(h@ =~= a + seq![0x57u8, 0x41, 0x56, 0x45, 0x66, 0x6D, 0x74, 0x20]);
    push_le32(&mut h, 16);
    push_le16(&mut h, 1); // PCM
    push_le16(&mut h, ch as u16);
    push_le32(&mut h, rate);
    push_le32(&mut h, rate * ch * 2); // bytes per second
    push_le16(&mut h, (ch * 2) as u16); // bytes per frame
    push_le16(&mut h, 16);
    h
}

/// Errors of the WAV writer.
#[derive(Debug, Clone, Copy, PartialEq, Eq)]
pub enum WavError {
    /// The audio does not fit in the 4 GB a WAV file allows.
    TooLarge,
}

impl WavError {
    pub fn message(&self) -> (s: String)
        ensures
            s@ == "El audio supera los 4 GB que admite un WAV"@,
    {
        String::from_str("El audio supera los 4 GB que admite un WAV")
    }
}

/// What closing a WAV file takes: bytes to append, then 32-bit little-endian sizes to write
/// at the given offsets.
pub struct WavFinish {
    pub tail: Vec<u8>,
    pub data_size_pos: u64,
    pub data_size: u32,
    pub riff_size: u32,
}

/// WAV writer state.
pub struct WavWriter {
    pub tags: Option<Tags>,
    /// Bytes of the header, up to the start of the samples.
    pub header_len: u64,
    pub data_bytes: u64,
}

impl WavWriter {
    pub fn new(tags: Option<Tags>) -> (w: WavWriter)
        ensures
            w.tags == tags,
            w.header_len == 0,
            w.data_bytes == 0,
    {
        WavWriter { tags, header_len: 0, data_bytes: 0 }
    }

    /// Returns the header. The rate, channels and byte rate must fit in their fields.
    pub fn header(&mut self, f: PcmFormat) -> (h: Vec<u8>)
        requires
            f.sample_rate as nat * f.channels as nat * 2 <= u32::MAX,
        ensures
            h@ == wav_header_spec(f, old(self).tags),
            final(self).tags == old(self).tags,
            final(self).header_len == h.len(),
            final(self).data_bytes == old(self).data_bytes,
    {
        let mut h = fmt_header(f);
        let ghost h0 = h@;
        if let Some(t) = &self.tags {
            let l = list_info(t);
            extend(&mut h, l.as_slice());
        }
        let ghost h1 = h@;
        push4(&mut h, 0x64, 0x61, 0x74, 0x61); // "data"
        push_le32(&mut h, 0); // size: patched when finished
        proof {
            let et = if let Some(t) = &self.tags { list_info_spec(*t) } else { Seq::empty() };
            assert(h1 =~= h0 + et);
            assert(h@ =~= wav_header_spec(f, self.tags));
        }
        self.header_len = h.len() as u64;
        h
    }

    /// Returns the samples as 16-bit little-endian bytes.
    pub fn encode(&mut self, samples: &[i16]) -> (out: Vec<u8>)
        requires
            old(self).data_bytes + 2 * samples.len() <= u64::MAX,
        ensures
            out@ == samples_le(samples@),
            final(self).data_bytes == old(self).data_bytes + 2 * samples.len(),
            final(self).tags == old(self).tags,
            final(self).header_len == old(self).header_len,
    {
        let mut out: Vec<u8> = Vec::new();
        let mut i: usize = 0;
        while i < samples.len()
            invariant
                i <= samples.len(),
                out@ == samples_le(samples@.subrange(0, i as int)),
            decreases samples.len() - i,
        {
            push_le16(&mut out, samples[i] as u16);
            proof {
                assert(samples@.subrange(0, i + 1).drop_last() =~= samples@.subrange(0, i as int));
            }
            i = i + 1;
        }
        assert(samples@.subrange(0, i as int) =~= samples@);
        self.data_bytes = self.data_bytes + samples.len() as u64 * 2;
        out
    }

    /// Closes the file: pads the data to an even length and gives the sizes of the "data"
    /// chunk and of the RIFF file, which is the header, the samples and the pad, less 8.
    pub fn close(&mut self) -> (r: Result<WavFinish, WavError>)
        requires
            old(self).header_len >= 8,
            old(self).header_len + old(self).data_bytes + 1 <= u64::MAX,
        ensures
            final(self).tags == old(self).tags,
            final(self).header_len == old(self).header_len,
            final(self).data_bytes == old(self).data_bytes,
            old(self).data_bytes > u32::MAX - 4096 ==> r == Err::<WavFinish, WavError>(WavError::TooLarge),
            old(self).data_bytes <= u32::MAX - 4096 ==> (r matches Ok(w) && {
                let pad: nat = (old(self).data_bytes % 2) as nat;
                let total = old(self).header_len + old(self).data_bytes + pad;
                &&& w.tail@ == (if pad == 1 { seq![0u8] } else { Seq::empty() })
                &&& w.data_size_pos == old(self).header_len - 4
                &&& w.data_size == old(self).data_bytes
                &&& w.riff_size == (total - 8) % 0x1_0000_0000
            }),
    {
        if self.data_bytes > u32::MAX as u64 - 4096 {
            return Err(WavError::TooLarge);
        }
        let mut tail: Vec<u8> = Vec::new();
        let pad = self.data_bytes % 2;
        if pad == 1 {
            tail.push(0);
        }
        let total = self.header_len + self.data_bytes + pad;
        Ok(WavFinish {
            tail,
            data_size_pos: self.header_len - 4,
            data_size: self.data_bytes as u32,
            riff_size: ((total - 8) % 0x1_0000_0000) as u32,
        })
    }
}

/// Samples as 16-bit little-endian bytes.
pub open spec fn samples_le(s: Seq<i16>) -> Seq<u8>
    decreases s.len(),
{
    if s.len() == 0 { Seq::empty() } else { samples_le(s.drop_last()) + le16(s.last() as u16 as nat) }
}

/// WAV size fields: the RIFF size is the length of everything after its own 8-byte header.
pub proof fn lemma_wav_sizes(f: PcmFormat, tags: Option<Tags>, samples: Seq<i16>)
    requires
        2 * samples.len() <= u32::MAX - 4096,
    ensures
        samples_le(samples).len() == 2 * samples.len(),
        ({
            let file_len = wav_header_spec(f, tags).len() + samples_le(samples).len();
            (file_len - 8) % 0x1_0000_0000 == (wav_header_spec(f, tags).len() + 2 * samples.len() - 8) % 0x1_0000_0000
        }),
    decreases samples.len(),
{
    if samples.len() > 0 {
        lemma_wav_sizes(f, tags, samples.drop_last());
    }
}

fn le32_bytes(x: u32) -> (v: Vec<u8>)
    ensures
        v@ == le32(x as nat),
{
    let mut v: Vec<u8> = Vec::new();
    push_le32(&mut v, x);
    assert(v@ =~= le32(x as nat));
    v
}

impl PcmSink for WavWriter {
    open spec fn ready(&self) -> bool {
        true
    }

    /// The header; rates whose byte rate does not fit its 32-bit field are refused.
    fn start(&mut self, format: PcmFormat) -> (r: Result<Vec<u8>, String>)
        ensures
            format.sample_rate as nat * format.channels as nat * 2 > u32::MAX ==> r is Err && *final(self) == *old(self),
            format.sample_rate as nat * format.channels as nat * 2 <= u32::MAX ==> {
                &&& r matches Ok(h) && h@ == wav_header_spec(format, old(self).tags)
                    && final(self).header_len == h.len()
                &&& final(self).tags == old(self).tags
                &&& final(self).data_bytes == old(self).data_bytes
            },
    {
        let a = format.sample_rate as u64;
        let b = format.channels as u64;
        assert(a * b * 2 < 0x200_0000_0000) by (nonlinear_arith) requires a < 0x1_0000_0000, b < 0x100;
        if a * b * 2 > 0xFFFF_FFFF {
            return Err(String::from_str("Formato PCM no soportado por WAV"));
        }
        Ok(WavWriter::header(self, format))
    }

    fn write(&mut self, samples: &[i16]) -> (r: Result<Vec<u8>, String>)
        ensures
            old(self).data_bytes + 2 * samples.len() > u64::MAX ==> r is Err && *final(self) == *old(self),
            old(self).data_bytes + 2 * samples.len() <= u64::MAX ==> {
                &&& r matches Ok(out) && out@ == samples_le(samples@)
                &&& final(self).data_bytes == old(self).data_bytes + 2 * samples.len()
                &&& final(self).tags == old(self).tags
                &&& final(self).header_len == old(self).header_len
            },
    {
        if self.data_bytes as u128 + 2 * samples.len() as u128 > 0xFFFF_FFFF_FFFF_FFFF {
            return Err(String::from_str("Audio demasiado largo"));
        }
        Ok(WavWriter::encode(self, samples))
    }

    /// The pad byte, then the size of the "data" chunk and of the RIFF file written over
    /// their placeholders.
    fn finish(&mut self) -> (r: Result<SinkEnd, String>)
        ensures
            *final(self) == *old(self),
            (old(self).header_len < 8 || old(self).header_len + old(self).data_bytes + 1 > u64::MAX
                || old(self).data_bytes > u32::MAX - 4096) ==> r is Err,
            (old(self).header_len >= 8 && old(self).header_len + old(self).data_bytes + 1 <= u64::MAX
                && old(self).data_bytes <= u32::MAX - 4096) ==> (r matches Ok(end) && {
                let pad: nat = (old(self).data_bytes % 2) as nat;
                let total = old(self).header_len + old(self).data_bytes + pad;
                &&& end.tail@ == (if pad == 1 { seq![0u8] } else { Seq::empty() })
                &&& end.patches@.len() == 2
                &&& end.patches@[0].0 == old(self).header_len - 4
                &&& end.patches@[0].1@ == le32(old(self).data_bytes as nat)
                &&& end.patches@[1].0 == 4
                &&& end.patches@[1].1@ == le32(((total - 8) % 0x1_0000_0000) as nat)
            }),
    {
        if self.header_len < 8 {
            return Err(String::from_str("WAV sin iniciar"));
        }
        if self.header_len as u128 + self.data_bytes as u128 + 1 > 0xFFFF_FFFF_FFFF_FFFF {
            return Err(String::from_str("Audio demasiado largo"));
        }
        match WavWriter::close(self) {
            Err(e) => Err(e.message()),
            Ok(w) => {
                let mut patches: Vec<(u64, Vec<u8>)> = Vec::new();
                patches.push((w.data_size_pos, le32_bytes(w.data_size)));
                patches.push((4, le32_bytes(w.riff_size)));
                Ok(SinkEnd { tail: w.tail, patches })
            }
        }
    }
}

} // verus!
