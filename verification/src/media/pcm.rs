//! PCM shared by the encoders: the format, the sink interface, and AAC decoding to PCM.
//! Decoding is the one step done by an outside library (symphonia's AAC decoder).

use vstd::prelude::*;
use crate::media::mp4::aac::AacStream;
use crate::text::{decimal, decimal_string};
use symphonia_codec_aac::AacDecoder;
use symphonia_core::codecs::audio::well_known::CODEC_ID_AAC;
use symphonia_core::codecs::audio::{AudioCodecParameters, AudioDecoder, AudioDecoderOptions};
use symphonia_core::packet::PacketRef;
use symphonia_core::units::{Duration, Timestamp};

verus! {

/// Sample rate and channel count of 16-bit interleaved PCM.
#[derive(Clone, Copy, Debug, PartialEq, Eq)]
pub struct PcmFormat {
    pub sample_rate: u32,
    pub channels: u8,
}

/// What closing an output takes: bytes to append, then bytes to write over the file at
/// the given offsets (sizes and totals only known at the end).
pub struct SinkEnd {
    pub tail: Vec<u8>,
    pub patches: Vec<(u64, Vec<u8>)>,
}

/// Where PCM goes (WAV, FLAC, MP3...). It gets the samples as they are decoded, so hours of
/// audio are never held in memory; each call hands back the bytes to append to the output.
pub trait PcmSink {
    /// What the sink keeps true between calls.
    spec fn ready(&self) -> bool;

    /// Called once, before the first sample.
    fn start(&mut self, format: PcmFormat) -> (r: Result<Vec<u8>, String>)
        requires
            old(self).ready(),
        ensures
            final(self).ready();

    /// Interleaved `i16` samples (L R L R...).
    fn write(&mut self, samples: &[i16]) -> (r: Result<Vec<u8>, String>)
        requires
            old(self).ready(),
        ensures
            final(self).ready();

    /// Called at the end, to close the output (headers, last block...).
    fn finish(&mut self) -> (r: Result<SinkEnd, String>)
        requires
            old(self).ready(),
        ensures
            final(self).ready();
}

#[verifier::external_type_specification]
#[verifier::external_body]
pub struct ExAacDecoder(AacDecoder);

/// Why AAC audio cannot be decoded.
#[derive(Debug, PartialEq, Eq)]
pub enum PcmError {
    /// Only mono and stereo are decoded.
    TooManyChannels(u8),
    /// The decoder refused the stream (its message).
    Decoder(String),
}

impl PcmError {
    /// Text shown for the error.
    pub fn message(&self) -> (m: String)
        ensures
            match self {
                PcmError::TooManyChannels(n) => m@ == "Audio de "@ + decimal(*n as nat)
                    + " canales no soportado (solo mono o estéreo)"@,
                PcmError::Decoder(t) => m@ == t@,
            },
    {
        match self {
            PcmError::TooManyChannels(n) => {
                let mut m = String::from_str("Audio de ");
                m.append(decimal_string(*n as u64).as_str());
                m.append(" canales no soportado (solo mono o estéreo)");
                m
            },
            PcmError::Decoder(t) => t.clone(),
        }
    }
}

/// `AacDecoder::try_new` for AAC at `sample_rate` with the AudioSpecificConfig as extra data.
/// Nothing is promised of when the decoder accepts a stream (it takes AAC-LC without SBR,
/// 1024 samples per frame and at most two channels; the rest is its own checks); its
/// error comes back as its message. A decoder it makes is the one for that configuration
/// (`aac_config`) and has been handed no frame yet.
#[verifier::external_body]
fn new_aac_decoder(asc: &[u8], sample_rate: u32) -> (r: Result<AacDecoder, String>)
    ensures
        r matches Ok(d) ==> aac_config(d) == (asc@, sample_rate) && aac_frames(d).len() == 0
            && aac_answers(d).len() == 0,
{
    let mut params = AudioCodecParameters::new();
    params.for_codec(CODEC_ID_AAC).with_sample_rate(sample_rate).with_extra_data(asc.to_vec().into_boxed_slice());
    AacDecoder::try_new(&params, &AudioDecoderOptions::default()).map_err(|e| e.to_string())
}

/// The configuration a decoder was made with: the AudioSpecificConfig and the sample rate.
pub uninterp spec fn aac_config(d: AacDecoder) -> (Seq<u8>, u32);

/// The frames handed to a decoder, in order: the bytes, the presentation time and the length
/// in samples.
pub uninterp spec fn aac_frames(d: AacDecoder) -> Seq<(Seq<u8>, i64, u64)>;

/// The decoder's answers, in order: the samples of each frame, or nothing for a rejected one.
pub uninterp spec fn aac_answers(d: AacDecoder) -> Seq<Option<Seq<i16>>>;

/// `AudioDecoder::decode_ref` on one AAC frame at presentation time `pts`, lasting `dur`
/// samples, the decoded audio copied out as interleaved `i16`; `None` when the decoder
/// rejects the frame.
/// What the samples are is the decoder's (floating-point) work and is not stated; the frame,
/// its time and length join the decoder's record of frames (`aac_frames`), and its answer
/// joins its record of answers (`aac_answers`).
#[verifier::external_body]
fn decode_aac_frame(dec: &mut AacDecoder, frame: &[u8], pts: i64, dur: u64) -> (r: Option<Vec<i16>>)
    ensures
        aac_config(*final(dec)) == aac_config(*old(dec)),
        aac_frames(*final(dec)) == aac_frames(*old(dec)).push((frame@, pts, dur)),
        aac_answers(*final(dec)) == aac_answers(*old(dec)).push(match r {
            Some(v) => Some(v@),
            None => None,
        }),
{
    let packet = PacketRef::new(0, Timestamp::new(pts), Duration::new(dur), frame);
    match dec.decode_ref(&packet) {
        Ok(buf) => {
            let mut pcm: Vec<i16> = Vec::new();
            buf.copy_to_vec_interleaved::<i16>(&mut pcm);
            Some(pcm)
        }
        Err(_) => None,
    }
}

/// Samples per channel in an AAC-LC frame.
pub const AAC_FRAME: u64 = 1024;

/// The PCM of a decoded frame; a frame the decoder rejects becomes 1024 samples of silence per
/// channel, so one damaged frame does not lose the whole song.
pub fn pcm_or_silence(decoded: Option<Vec<i16>>, channels: u8) -> (pcm: Vec<i16>)
    ensures
        match decoded {
            Some(v) => pcm@ == v@,
            None => pcm@ == Seq::new(1024 * channels as nat, |i: int| 0i16),
        },
{
    match decoded {
        Some(v) => v,
        None => {
            let n = 1024 * channels as usize;
            let mut s: Vec<i16> = Vec::new();
            let mut i: usize = 0;
            while i < n
                invariant
                    i <= n,
                    n == 1024 * channels as nat,
                    s@ == Seq::new(i as nat, |k: int| 0i16),
                decreases n - i,
            {
                s.push(0);
                assert(s@ =~= Seq::new((i + 1) as nat, |k: int| 0i16));
                i = i + 1;
            }
            s
        }
    }
}

/// The PCM format of an AAC stream, which must be mono or stereo.
pub fn pcm_format(aac: &AacStream) -> (r: Result<PcmFormat, PcmError>)
    ensures
        aac.channels > 2 ==> r == Err::<PcmFormat, PcmError>(PcmError::TooManyChannels(aac.channels)),
        aac.channels <= 2 ==> r == Ok::<PcmFormat, PcmError>(PcmFormat { sample_rate: aac.sample_rate, channels: aac.channels }),
{
    if aac.channels > 2 {
        Err(PcmError::TooManyChannels(aac.channels))
    } else {
        Ok(PcmFormat { sample_rate: aac.sample_rate, channels: aac.channels })
    }
}

/// Decodes the frames of an AAC stream one after another.
pub struct AacPcm {
    pub dec: AacDecoder,
    /// Presentation time of the next frame.
    pub pts: i64,
    pub channels: u8,
}

impl AacPcm {
    /// A decoder for a mono or stereo AAC stream.
    pub fn new(aac: &AacStream) -> (r: Result<AacPcm, PcmError>)
        ensures
            aac.channels > 2 ==> r == Err::<AacPcm, PcmError>(PcmError::TooManyChannels(aac.channels)),
            aac.channels <= 2 ==> match r {
                Ok(p) => p.pts == 0 && p.channels == aac.channels
                    && aac_config(p.dec) == (aac.asc@, aac.sample_rate)
                    && aac_frames(p.dec).len() == 0 && aac_answers(p.dec).len() == 0,
                Err(e) => e matches PcmError::Decoder(t) && exists|m: Seq<char>| t@ == "Decodificador AAC: "@ + m,
            },
    {
        let f = pcm_format(aac)?;
        match new_aac_decoder(aac.asc.as_slice(), f.sample_rate) {
            Ok(dec) => Ok(AacPcm { dec, pts: 0, channels: f.channels }),
            Err(m) => {
                let mut t = String::from_str("Decodificador AAC: ");
                t.append(m.as_str());
                Err(PcmError::Decoder(t))
            },
        }
    }

    /// The PCM of the next frame: what the decoder gives, or silence for a damaged frame.
    pub fn decode(&mut self, frame: &[u8]) -> (pcm: Vec<i16>)
        ensures
            final(self).pts == if old(self).pts <= i64::MAX - 1024 { old(self).pts + 1024 } else { old(self).pts as int },
            final(self).channels == old(self).channels,
            aac_config(final(self).dec) == aac_config(old(self).dec),
            aac_frames(final(self).dec) == aac_frames(old(self).dec).push((frame@, old(self).pts, AAC_FRAME)),
            aac_answers(final(self).dec).drop_last() == aac_answers(old(self).dec),
            aac_answers(final(self).dec).len() == aac_answers(old(self).dec).len() + 1,
            pcm@ == match aac_answers(final(self).dec).last() {
                Some(v) => v,
                None => Seq::new(1024 * old(self).channels as nat, |i: int| 0i16),
            },
    {
        let decoded = decode_aac_frame(&mut self.dec, frame, self.pts, AAC_FRAME);
        if self.pts <= i64::MAX - 1024 {
            self.pts = self.pts + 1024;
        }
        pcm_or_silence(decoded, self.channels)
    }
}

} // verus!
