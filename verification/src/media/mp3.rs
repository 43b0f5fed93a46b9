//! MP3 output: the ID3v2.3 tag with the cover is our own code; the encoder is `rusty_mp3`.

use vstd::prelude::*;
use crate::media::bytes::{be32, be32_value, lemma_be32_roundtrip, push_be32, extend};
use crate::media::flac::utf8;
use crate::media::tags::{Tags, starts_png, is_png};
use crate::text::chars_of;
use crate::media::pcm::{PcmFormat, PcmSink, SinkEnd};
use crate::media::mp4::boxes::{flatten, lemma_flatten_front};
use rusty_mp3::{Mp3Encoder, Mp3EncoderConfig};

verus! {

/// Size of an ID3v2 tag: four 7-bit groups ("synchsafe").
pub open spec fn synchsafe_spec(n: u64) -> Seq<u8> {
    seq![((n >> 21u64) & 0x7f) as u8, ((n >> 14u64) & 0x7f) as u8, ((n >> 7u64) & 0x7f) as u8, (n & 0x7f) as u8]
}

/// Value of a synchsafe integer.
pub open spec fn synchsafe_value(b: Seq<u8>) -> nat {
    b[0] as nat * 0x20_0000 + b[1] as nat * 0x4000 + b[2] as nat * 0x80 + b[3] as nat
}

pub fn synchsafe(n: usize) -> (r: [u8; 4])
    ensures
        r@ == synchsafe_spec(n as u64),
{
    let m = n as u64;
    let r = [((m >> 21u64) & 0x7f) as u8, ((m >> 14u64) & 0x7f) as u8, ((m >> 7u64) & 0x7f) as u8, (m & 0x7f) as u8];
    assert(r@ =~= synchsafe_spec(m));
    r
}

/// A size below 2^28 is read back from its synchsafe form.
pub proof fn lemma_synchsafe_roundtrip(n: u64)
    requires
        n < 0x1000_0000,
    ensures
        synchsafe_value(synchsafe_spec(n)) == n,
{
    let b0 = (n >> 21u64) & 0x7f;
    let b1 = (n >> 14u64) & 0x7f;
    let b2 = (n >> 7u64) & 0x7f;
    let b3 = n & 0x7f;
    assert(b0 < 128 && b1 < 128 && b2 < 128 && b3 < 128) by (bit_vector)
        requires
            b0 == (n >> 21u64) & 0x7f,
            b1 == (n >> 14u64) & 0x7f,
            b2 == (n >> 7u64) & 0x7f,
            b3 == n & 0x7f;
    let s = synchsafe_spec(n);
    assert(s[0] as nat == b0 && s[1] as nat == b1 && s[2] as nat == b2 && s[3] as nat == b3);
    assert(b0 * 0x20_0000 + b1 * 0x4000 + b2 * 0x80 + b3 == n) by (bit_vector)
        requires
            n < 0x1000_0000,
            b0 == (n >> 21u64) & 0x7f,
            b1 == (n >> 14u64) & 0x7f,
            b2 == (n >> 7u64) & 0x7f,
            b3 == n & 0x7f;
}

/// UTF-16 code units of a character.
pub open spec fn utf16_units(c: char) -> Seq<u16> {
    let v = c as u32;
    if v < 0x10000 {
        seq![v as u16]
    } else {
        let w = (v - 0x10000) as nat;
        seq![(0xD800 + w / 0x400) as u16, (0xDC00 + w % 0x400) as u16]
    }
}

/// UTF-16 little-endian bytes of a text.
pub open spec fn utf16_le(s: Seq<char>) -> Seq<u8>
    decreases s.len(),
{
    if s.len() == 0 {
        Seq::empty()
    } else {
        let u = utf16_units(s.last());
        utf16_le(s.drop_last()) + if u.len() == 1 {
            le16_of(u[0])
        } else {
            le16_of(u[0]) + le16_of(u[1])
        }
    }
}

pub open spec fn le16_of(u: u16) -> Seq<u8> {
    seq![(u % 0x100) as u8, (u / 0x100) as u8]
}

/// Every character of `s` is in ISO-8859-1 (below U+0100).
pub open spec fn all_latin1(s: Seq<char>) -> bool {
    forall|i: int| 0 <= i < s.len() ==> (#[trigger] s[i] as u32) < 0x100
}

/// The ISO-8859-1 bytes of `s`: one byte per character, its code.
pub open spec fn latin1(s: Seq<char>) -> Seq<u8> {
    Seq::new(s.len(), |i: int| (s[i] as u32) as u8)
}

/// Text of an ID3v2.3 frame: ISO-8859-1 (encoding 0) when every character fits, otherwise
/// UTF-16 with a byte-order mark (encoding 1).
pub open spec fn text_payload_spec(s: Seq<char>) -> Seq<u8> {
    if all_latin1(s) {
        seq![0u8] + latin1(s)
    } else {
        seq![1u8, 0xff, 0xfe] + utf16_le(s)
    }
}

fn push_u16_le(v: &mut Vec<u8>, u: u16)
    ensures
        final(v)@ == old(v)@ + le16_of(u),
{
    let lo = (u & 0xFF) as u8;
    let hi = (u >> 8u16) as u8;
    assert(lo == u % 0x100 && hi == u / 0x100) by (bit_vector)
        requires lo == (u & 0xFF) as u8, hi == (u >> 8u16) as u8;
    v.push(lo);
    v.push(hi);
    assert(v@ =~= old(v)@ + le16_of(u));
}

pub fn text_payload(s: &str) -> (v: Vec<u8>)
    ensures
        v@ == text_payload_spec(s@),
{
    let cs = chars_of(s);
    let mut fits = true;
    let mut i: usize = 0;
    while i < cs.len()
        invariant
            i <= cs.len(),
            fits == (forall|j: int| 0 <= j < i ==> (#[trigger] cs@[j] as u32) < 0x100),
        decreases cs.len() - i,
    {
        if (cs[i] as u32) >= 0x100 {
            fits = false;
        }
        i = i + 1;
    }
    let mut v: Vec<u8> = Vec::new();
    if fits {
        v.push(0);
        let mut k: usize = 0;
        while k < cs.len()
            invariant
                k <= cs.len(),
                v@ == seq![0u8] + latin1(cs@.subrange(0, k as int)),
            decreases cs.len() - k,
        {
            v.push((cs[k] as u32) as u8);
            assert(v@ =~= seq![0u8] + latin1(cs@.subrange(0, k + 1)));
            k = k + 1;
        }
        assert(cs@.subrange(0, k as int) =~= s@);
        assert(v@ =~= text_payload_spec(s@));
    } else {
        v.push(1);
        v.push(0xff);
        v.push(0xfe);
        let ghost head = v@;
        let mut i: usize = 0;
        while i < cs.len()
            invariant
                i <= cs.len(),
                v@ == head + utf16_le(cs@.subrange(0, i as int)),
            decreases cs.len() - i,
        {
            let c = cs[i] as u32;
            if c < 0x10000 {
                push_u16_le(&mut v, c as u16);
            } else {
                let w = c - 0x10000;
                assert(w / 0x400 < 0x400) by {
                    assert(c <= 0x10FFFF) by { vstd::utf8::char_is_scalar(cs@[i as int]); }
                }
                push_u16_le(&mut v, (0xD800 + w / 0x400) as u16);
                push_u16_le(&mut v, (0xDC00 + w % 0x400) as u16);
            }
            proof {
                let t = cs@.subrange(0, i + 1);
                assert(t.drop_last() =~= cs@.subrange(0, i as int));
                assert(t.last() == cs@[i as int]);
                assert(v@ =~= head + utf16_le(t));
            }
            i = i + 1;
        }
        assert(cs@.subrange(0, i as int) =~= s@);
    }
    v
}

/// An ID3v2.3 frame: id, size (32-bit big-endian, not synchsafe in 2.3), no flags, payload.
pub open spec fn id3_frame_spec(id: Seq<u8>, payload: Seq<u8>) -> Seq<u8> {
    id + be32(payload.len() % 0x1_0000_0000) + seq![0u8, 0u8] + payload
}

pub fn frame(id: &[u8; 4], payload: &[u8]) -> (f: Vec<u8>)
    ensures
        f@ == id3_frame_spec(id@, payload@),
{
    let mut f: Vec<u8> = Vec::new();
    extend(&mut f, id);
    push_be32(&mut f, (payload.len() as u64 % 0x1_0000_0000) as u32);
    f.push(0);
    f.push(0);
    extend(&mut f, payload);
    assert(f@ =~= id3_frame_spec(id@, payload@));
    f
}

/// Attached picture: text encoding 0, MIME type (zero-terminated), front cover (3), empty
/// description, image data.
pub open spec fn apic_spec(c: Seq<u8>) -> Seq<u8> {
    let mime = if starts_png(c) { utf8("image/png"@) } else { utf8("image/jpeg"@) };
    seq![0u8] + mime + seq![0u8, 3u8, 0u8] + c
}

/// The frames of the tag: title, artist, album, year and cover.
pub open spec fn id3_frames_spec(t: Tags) -> Seq<u8> {
    id3_frame_spec(seq![0x54u8, 0x49, 0x54, 0x32], text_payload_spec(t.title@))
        + id3_frame_spec(seq![0x54u8, 0x50, 0x45, 0x31], text_payload_spec(t.artist@))
        + (if let Some(a) = t.album { id3_frame_spec(seq![0x54u8, 0x41, 0x4C, 0x42], text_payload_spec(a@)) } else { Seq::empty() })
        + (if let Some(y) = t.year { id3_frame_spec(seq![0x54u8, 0x59, 0x45, 0x52], text_payload_spec(y@)) } else { Seq::empty() })
        + (if let Some(c) = t.cover { id3_frame_spec(seq![0x41u8, 0x50, 0x49, 0x43], apic_spec(c@)) } else { Seq::empty() })
}

/// ID3v2.3 tag: "ID3", version 3.0, no flags, synchsafe size, frames.
pub open spec fn id3v2_spec(t: Tags) -> Seq<u8> {
    let frames = id3_frames_spec(t);
    seq![0x49u8, 0x44, 0x33, 0x03, 0x00, 0x00] + synchsafe_spec(frames.len() as u64) + frames
}

/// The size field of an ID3v2 tag gives the length of what follows its 10-byte header (for
/// tags under 256 MB, the most a synchsafe size holds).
pub proof fn lemma_id3_size(t: Tags)
    requires
        id3_frames_spec(t).len() < 0x1000_0000,
    ensures
        id3v2_spec(t).len() == 10 + id3_frames_spec(t).len(),
        synchsafe_value(id3v2_spec(t).subrange(6, 10)) == id3v2_spec(t).len() - 10,
{
    let n = id3_frames_spec(t).len();
    lemma_synchsafe_roundtrip(n as u64);
    assert(id3v2_spec(t).subrange(6, 10) =~= synchsafe_spec(n as u64));
}

/// What a reader of an ID3v2.3 tag finds under frame id `id` in the frames `fs`: it reads
/// each frame's id, 32-bit big-endian size and two flag bytes, and gives the payload of the
/// first frame with that id.
pub open spec fn id3_lookup(fs: Seq<u8>, id: Seq<u8>) -> Option<Seq<u8>>
    decreases fs.len(),
{
    if fs.len() < 10 {
        None
    } else {
        let size = be32_value(fs.subrange(4, 8)) as int;
        if 10 + size > fs.len() {
            None
        } else if fs.subrange(0, 4) == id {
            Some(fs.subrange(10, 10 + size))
        } else {
            id3_lookup(fs.subrange(10 + size, fs.len() as int), id)
        }
    }
}

proof fn lemma_id3_lookup_frame(fid: Seq<u8>, payload: Seq<u8>, rest: Seq<u8>, id: Seq<u8>)
    requires
        fid.len() == 4,
        payload.len() < 0x1_0000_0000,
    ensures
        id3_lookup(id3_frame_spec(fid, payload) + rest, id)
            == if fid == id { Some(payload) } else { id3_lookup(rest, id) },
{
    let fs = id3_frame_spec(fid, payload) + rest;
    assert(payload.len() % 0x1_0000_0000 == payload.len());
    lemma_be32_roundtrip(payload.len() as u32);
    assert(fs.subrange(4, 8) =~= be32(payload.len() % 0x1_0000_0000));
    assert(fs.subrange(0, 4) =~= fid);
    assert(fs.subrange(10, 10 + payload.len() as int) =~= payload);
    assert(fs.subrange(10 + payload.len() as int, fs.len() as int) =~= rest);
}

/// A tag starts with "ID3" and version 3, and its frames follow its 10-byte header.
pub proof fn lemma_id3_layout(t: Tags)
    ensures
        id3v2_spec(t).subrange(0, 4) == seq![0x49u8, 0x44, 0x33, 0x03],
        id3v2_spec(t).subrange(10, id3v2_spec(t).len() as int) == id3_frames_spec(t),
{
    let whole = id3v2_spec(t);
    assert(whole.subrange(0, 4) =~= seq![0x49u8, 0x44, 0x33, 0x03]);
    assert(whole.subrange(10, whole.len() as int) =~= id3_frames_spec(t));
}

/// Each field of a tag is found under its own frame id: the title under TIT2, the artist
/// under TPE1, the album under TALB, the year under TYER and the cover under APIC (none
/// under a field's id when the field is missing), for tags under 256 MB (the most a
/// synchsafe size holds).
#[verifier::rlimit(40)]
pub proof fn lemma_id3_fields(t: Tags)
    requires
        id3_frames_spec(t).len() < 0x1000_0000,
    ensures
        ({
            let fs = id3_frames_spec(t);
            &&& id3_lookup(fs, seq![0x54u8, 0x49, 0x54, 0x32]) == Some(text_payload_spec(t.title@))
            &&& id3_lookup(fs, seq![0x54u8, 0x50, 0x45, 0x31]) == Some(text_payload_spec(t.artist@))
            &&& id3_lookup(fs, seq![0x54u8, 0x41, 0x4C, 0x42]) == match t.album {
                Some(a) => Some(text_payload_spec(a@)),
                None => None::<Seq<u8>>,
            }
            &&& id3_lookup(fs, seq![0x54u8, 0x59, 0x45, 0x52]) == match t.year {
                Some(y) => Some(text_payload_spec(y@)),
                None => None::<Seq<u8>>,
            }
            &&& id3_lookup(fs, seq![0x41u8, 0x50, 0x49, 0x43]) == match t.cover {
                Some(c) => Some(apic_spec(c@)),
                None => None::<Seq<u8>>,
            }
        }),
{
    let tit2 = seq![0x54u8, 0x49, 0x54, 0x32];
    let tpe1 = seq![0x54u8, 0x50, 0x45, 0x31];
    let talb = seq![0x54u8, 0x41, 0x4C, 0x42];
    let tyer = seq![0x54u8, 0x59, 0x45, 0x52];
    let apic = seq![0x41u8, 0x50, 0x49, 0x43];
    let ids = seq![tit2, tpe1, talb, tyer, apic];
    assert(tit2 != tpe1 && tit2 != talb && tit2 != tyer && tit2 != apic) by {
        assert(tit2[1] != tpe1[1] && tit2[1] != talb[1] && tit2[1] != tyer[1] && tit2[0] != apic[0]);
    }
    assert(tpe1 != talb && tpe1 != tyer && tpe1 != apic) by {
        assert(tpe1[1] != talb[1] && tpe1[1] != tyer[1] && tpe1[0] != apic[0]);
    }
    assert(talb != tyer && talb != apic) by {
        assert(talb[1] != tyer[1] && talb[0] != apic[0]);
    }
    assert(tyer != apic) by { assert(tyer[0] != apic[0]); }
    let ft = id3_frame_spec(tit2, text_payload_spec(t.title@));
    let fa = id3_frame_spec(tpe1, text_payload_spec(t.artist@));
    let fal = if let Some(a) = t.album { id3_frame_spec(talb, text_payload_spec(a@)) } else { Seq::empty() };
    let fy = if let Some(y) = t.year { id3_frame_spec(tyer, text_payload_spec(y@)) } else { Seq::empty() };
    let fc = if let Some(c) = t.cover { id3_frame_spec(apic, apic_spec(c@)) } else { Seq::empty() };
    let fs = id3_frames_spec(t);
    assert(fs == ft + fa + fal + fy + fc);
    let r_c = fc;
    let r_y = fy + fc;
    let r_a = fal + fy + fc;
    let r_t = fa + fal + fy + fc;
    assert(fs =~= ft + r_t);
    assert(r_t =~= fa + r_a);
    assert(r_a =~= fal + r_y);
    assert(r_y =~= fy + r_c);
    assert forall|k: int| 0 <= k < 5 implies #[trigger] id3_lookup(Seq::<u8>::empty(), ids[k]) == None::<Seq<u8>> by {}
    assert forall|k: int| 0 <= k < 5 implies #[trigger] id3_lookup(r_c, ids[k]) == (if r_c.len() > 0 && ids[k] == apic {
        match t.cover { Some(c) => Some(apic_spec(c@)), None => None::<Seq<u8>> } } else { None::<Seq<u8>> }) by {
        if let Some(c) = t.cover {
            assert(fc =~= id3_frame_spec(apic, apic_spec(c@)) + Seq::<u8>::empty());
            lemma_id3_lookup_frame(apic, apic_spec(c@), Seq::empty(), ids[k]);
        }
    }
    assert forall|k: int| 0 <= k < 5 implies #[trigger] id3_lookup(r_y, ids[k]) == (if ids[k] == tyer {
        match t.year { Some(y) => Some(text_payload_spec(y@)), None => None::<Seq<u8>> } } else { id3_lookup(r_c, ids[k]) }) by {
        if let Some(y) = t.year {
            lemma_id3_lookup_frame(tyer, text_payload_spec(y@), r_c, ids[k]);
        } else {
            assert(r_y =~= r_c);
            if ids[k] == tyer {
                assert(id3_lookup(r_c, ids[k]) == None::<Seq<u8>>);
            }
        }
    }
    assert forall|k: int| 0 <= k < 5 implies #[trigger] id3_lookup(r_a, ids[k]) == (if ids[k] == talb {
        match t.album { Some(a) => Some(text_payload_spec(a@)), None => None::<Seq<u8>> } } else { id3_lookup(r_y, ids[k]) }) by {
        if let Some(a) = t.album {
            lemma_id3_lookup_frame(talb, text_payload_spec(a@), r_y, ids[k]);
        } else {
            assert(r_a =~= r_y);
            if ids[k] == talb {
                assert(id3_lookup(r_c, ids[k]) == None::<Seq<u8>>);
                assert(id3_lookup(r_y, ids[k]) == None::<Seq<u8>>);
            }
        }
    }
    assert forall|k: int| 0 <= k < 5 implies #[trigger] id3_lookup(r_t, ids[k]) == (if ids[k] == tpe1 {
        Some(text_payload_spec(t.artist@)) } else { id3_lookup(r_a, ids[k]) }) by {
        lemma_id3_lookup_frame(tpe1, text_payload_spec(t.artist@), r_a, ids[k]);
    }
    assert forall|k: int| 0 <= k < 5 implies #[trigger] id3_lookup(fs, ids[k]) == (if ids[k] == tit2 {
        Some(text_payload_spec(t.title@)) } else { id3_lookup(r_t, ids[k]) }) by {
        lemma_id3_lookup_frame(tit2, text_payload_spec(t.title@), r_t, ids[k]);
    }
    assert(ids[0] == tit2 && ids[1] == tpe1 && ids[2] == talb && ids[3] == tyer && ids[4] == apic);
}

/// ID3v2.3 tag with title, artist, album, year and cover.
pub fn id3v2(t: &Tags) -> (out: Vec<u8>)
    ensures
        out@ == id3v2_spec(*t),
{
    let mut frames = frame(&[0x54, 0x49, 0x54, 0x32], text_payload(t.title.as_str()).as_slice()); // TIT2
    let f = frame(&[0x54, 0x50, 0x45, 0x31], text_payload(t.artist.as_str()).as_slice()); // TPE1
    extend(&mut frames, f.as_slice());
    let ghost f1 = frames@;
    if let Some(a) = &t.album {
        let f = frame(&[0x54, 0x41, 0x4C, 0x42], text_payload(a.as_str()).as_slice()); // TALB
        extend(&mut frames, f.as_slice());
    }
    let ghost f2 = frames@;
    if let Some(y) = &t.year {
        let f = frame(&[0x54, 0x59, 0x45, 0x52], text_payload(y.as_str()).as_slice()); // TYER
        extend(&mut frames, f.as_slice());
    }
    let ghost f3 = frames@;
    if let Some(c) = &t.cover {
        let mut p: Vec<u8> = Vec::new();
        p.push(0);
        if is_png(c) {
            extend(&mut p, "image/png".as_bytes());
        } else {
            extend(&mut p, "image/jpeg".as_bytes());
        }
        p.push(0);
        p.push(3); // front cover
        p.push(0); // no description
        extend(&mut p, c.as_slice());
        assert(p@ =~= apic_spec(c@));
        let f = frame(&[0x41, 0x50, 0x49, 0x43], p.as_slice()); // APIC
        extend(&mut frames, f.as_slice());
    }
    proof {
        assert([0x54u8, 0x49, 0x54, 0x32]@ =~= seq![0x54u8, 0x49, 0x54, 0x32]);
        assert([0x54u8, 0x50, 0x45, 0x31]@ =~= seq![0x54u8, 0x50, 0x45, 0x31]);
        assert([0x54u8, 0x41, 0x4C, 0x42]@ =~= seq![0x54u8, 0x41, 0x4C, 0x42]);
        assert([0x54u8, 0x59, 0x45, 0x52]@ =~= seq![0x54u8, 0x59, 0x45, 0x52]);
        assert([0x41u8, 0x50, 0x49, 0x43]@ =~= seq![0x41u8, 0x50, 0x49, 0x43]);
        let ea = if let Some(a) = &t.album { id3_frame_spec(seq![0x54u8, 0x41, 0x4C, 0x42], text_payload_spec(a@)) } else { Seq::empty() };
        let ey = if let Some(y) = &t.year { id3_frame_spec(seq![0x54u8, 0x59, 0x45, 0x52], text_payload_spec(y@)) } else { Seq::empty() };
        let ec = if let Some(c) = &t.cover { id3_frame_spec(seq![0x41u8, 0x50, 0x49, 0x43], apic_spec(c@)) } else { Seq::empty() };
        assert(f2 =~= f1 + ea);
        assert(f3 =~= f2 + ey);
        assert(frames@ =~= f3 + ec);
        assert(frames@ =~= id3_frames_spec(*t));
    }
    let mut out: Vec<u8> = Vec::new();
    out.push(0x49);
    out.push(0x44);
    out.push(0x33); // "ID3"
    out.push(0x03);
    out.push(0x00);
    out.push(0x00);
    let size = synchsafe(frames.len());
    extend(&mut out, &size);
    extend(&mut out, frames.as_slice());
    assert(out@ =~= id3v2_spec(*t));
    out
}

// ---------- the encoder ----------

/// Bitrate when none is asked for.
pub const DEFAULT_KBPS: u32 = 192;

#[verifier::external_type_specification]
#[verifier::external_body]
pub struct ExMp3Encoder(Mp3Encoder);

#[verifier::external_type_specification]
#[verifier::external_body]
pub struct ExMp3Error(rusty_mp3::Error);

/// The encoded packets an encoder holds, in the order it hands them out.
pub uninterp spec fn mp3_queue(e: Mp3Encoder) -> Seq<Seq<u8>>;

/// The sample rates of MPEG-1, 2 and 2.5 Layer III.
pub open spec fn mp3_rate(rate: u32) -> bool {
    rate == 32000 || rate == 44100 || rate == 48000 || rate == 16000 || rate == 22050 || rate == 24000
        || rate == 8000 || rate == 11025 || rate == 12000
}

/// The samples handed to an encoder, push by push: the interleaved samples, the channels and
/// the sample rate of each accepted push.
pub uninterp spec fn mp3_fed(e: Mp3Encoder) -> Seq<(Seq<i16>, u16, u32)>;

/// The bitrate an encoder was made with.
pub uninterp spec fn mp3_kbps(e: Mp3Encoder) -> u32;

/// `Mp3Encoder::new` for constant bitrate `kbps`: it starts with no packets and no samples.
#[verifier::external_body]
fn new_encoder(kbps: u32) -> (e: Mp3Encoder)
    ensures
        mp3_queue(e).len() == 0,
        mp3_fed(e).len() == 0,
        mp3_kbps(e) == kbps,
{
    Mp3Encoder::new(Mp3EncoderConfig { bitrate_kbps: kbps, vbr_quality: None })
}

/// `Mp3Encoder::push_pcm_s16`: takes interleaved samples. It fails only on the first push, when
/// the rate is not an MPEG Layer III rate; it only adds packets after those already queued.
/// An accepted push joins the encoder's record of samples (`mp3_fed`).
/// Which packets it adds is the encoder's work (it also reads environment variables).
#[verifier::external_body]
fn push_pcm(e: &mut Mp3Encoder, samples: &[i16], channels: u16, rate: u32) -> (r: Result<(), rusty_mp3::Error>)
    ensures
        mp3_rate(rate) ==> r is Ok,
        mp3_queue(*old(e)).is_prefix_of(mp3_queue(*final(e))),
        r is Ok ==> mp3_fed(*final(e)) == mp3_fed(*old(e)).push((samples@, channels, rate)),
        r is Err ==> mp3_fed(*final(e)) == mp3_fed(*old(e)),
        mp3_kbps(*final(e)) == mp3_kbps(*old(e)),
{
    e.push_pcm_s16(samples, channels, rate)
}

/// `Mp3Encoder::next_packet`: hands out the first queued packet, or fails when none is queued.
#[verifier::external_body]
fn next_packet(e: &mut Mp3Encoder) -> (r: Result<Vec<u8>, rusty_mp3::Error>)
    ensures
        mp3_queue(*old(e)).len() > 0 ==> (r matches Ok(p) && p@ == mp3_queue(*old(e))[0]
            && mp3_queue(*final(e)) == mp3_queue(*old(e)).drop_first()),
        mp3_queue(*old(e)).len() == 0 ==> (r is Err && mp3_queue(*final(e)) == mp3_queue(*old(e))),
        mp3_fed(*final(e)) == mp3_fed(*old(e)),
        mp3_kbps(*final(e)) == mp3_kbps(*old(e)),
{
    e.next_packet()
}

/// `Mp3Encoder::finish`: flushes the last frames (and the tag frame) into the queue.
#[verifier::external_body]
fn finish_encoder(e: &mut Mp3Encoder)
    ensures
        mp3_fed(*final(e)) == mp3_fed(*old(e)),
        mp3_kbps(*final(e)) == mp3_kbps(*old(e)),
{
    e.finish()
}

/// The encoder's error as text (its `Debug` form); what the text says is the encoder's.
#[verifier::external_body]
fn encoder_error_text(e: &rusty_mp3::Error) -> (s: String)
{
    format!("{e:?}")
}

/// Errors of the MP3 writer.
#[derive(Debug)]
pub enum Mp3Error {
    /// `write` before `start`.
    NotStarted,
    /// The encoder refused the samples.
    Encoder(rusty_mp3::Error),
}

impl Mp3Error {
    pub fn message(&self) -> (s: String)
        ensures
            self is NotStarted ==> s@ == "MP3 sin iniciar"@,
            self is Encoder ==> exists|t: Seq<char>| s@ == "Codificador MP3: "@ + t,
    {
        match self {
            Mp3Error::NotStarted => String::from_str("MP3 sin iniciar"),
            Mp3Error::Encoder(e) => {
                let mut s = String::from_str("Codificador MP3: ");
                let t = encoder_error_text(e);
                s.append(t.as_str());
                s
            },
        }
    }
}

/// MP3 writer: the ID3v2 tag first, then the encoder's packets as they come.
pub struct Mp3Writer {
    pub tags: Option<Tags>,
    pub kbps: u32,
    pub enc: Option<Mp3Encoder>,
    pub format: Option<PcmFormat>,
    /// The packets the encoder held when they were last taken out of it.
    pub queued: Ghost<Seq<Seq<u8>>>,
}

/// All the packets, in order.
pub open spec fn packets(q: Seq<Seq<u8>>) -> Seq<u8> {
    flatten(q)
}

impl Mp3Writer {
    /// A writer at `kbps` (0: the default, 192).
    pub fn new(tags: Option<Tags>, kbps: u32) -> (w: Mp3Writer)
        ensures
            w.tags == tags,
            w.kbps == if kbps == 0 { DEFAULT_KBPS } else { kbps },
            w.enc is None,
            w.format is None,
    {
        let kbps = if kbps == 0 { DEFAULT_KBPS } else { kbps };
        Mp3Writer { tags, kbps, enc: None, format: None, queued: Ghost(Seq::empty()) }
    }

    /// Takes every packet the encoder holds.
    fn drain(&mut self) -> (out: Vec<u8>)
        ensures
            final(self).tags == old(self).tags,
            final(self).kbps == old(self).kbps,
            final(self).format == old(self).format,
            final(self).enc is Some <==> old(self).enc is Some,
            match old(self).enc {
                Some(e) => out@ == packets(mp3_queue(e)) && mp3_queue(final(self).enc->0).len() == 0
                    && final(self).queued@ == mp3_queue(e)
                    && mp3_fed(final(self).enc->0) == mp3_fed(e) && mp3_kbps(final(self).enc->0) == mp3_kbps(e),
                None => out@ == Seq::<u8>::empty() && final(self).queued == old(self).queued,
            },
    {
        let mut out: Vec<u8> = Vec::new();
        match self.enc.take() {
            None => out,
            Some(mut e) => {
                self.queued = Ghost(mp3_queue(e));
                let ghost q0 = mp3_queue(e);
                let ghost fed0 = mp3_fed(e);
                let ghost k0 = mp3_kbps(e);
                proof {
                    assert(Seq::<u8>::empty() + packets(q0) =~= packets(q0));
                }
                loop
                    invariant
                        out@ + packets(mp3_queue(e)) == packets(q0),
                        mp3_fed(e) == fed0,
                        mp3_kbps(e) == k0,
                    ensures
                        out@ == packets(q0),
                        mp3_queue(e).len() == 0,
                    decreases mp3_queue(e).len(),
                {
                    let ghost q = mp3_queue(e);
                    match next_packet(&mut e) {
                        Ok(p) => {
                            proof {
                                lemma_flatten_front(q);
                                assert(out@ + (p@ + packets(q.drop_first())) =~= out@ + p@ + packets(q.drop_first()));
                            }
                            extend(&mut out, p.as_slice());
                        }
                        Err(_) => {
                            assert(packets(q) =~= Seq::<u8>::empty());
                            assert(out@ + Seq::<u8>::empty() =~= out@);
                            break;
                        }
                    }
                }
                self.enc = Some(e);
                out
            }
        }
    }

    /// Starts the output: the ID3v2 tag when there are tags, and a new encoder.
    pub fn header(&mut self, f: PcmFormat) -> (head: Vec<u8>)
        ensures
            final(self).format == Some(f),
            final(self).tags == old(self).tags,
            final(self).kbps == old(self).kbps,
            final(self).enc matches Some(e) && mp3_queue(e).len() == 0 && mp3_fed(e).len() == 0
                && mp3_kbps(e) == old(self).kbps,
            head@ == match old(self).tags {
                Some(t) => id3v2_spec(t),
                None => Seq::<u8>::empty(),
            },
    {
        self.format = Some(f);
        let head = match &self.tags {
            Some(t) => id3v2(t),
            None => Vec::new(),
        };
        self.enc = Some(new_encoder(self.kbps));
        head
    }

    /// Encodes samples; gives the packets that came out of the encoder.
    pub fn encode(&mut self, samples: &[i16]) -> (r: Result<Vec<u8>, Mp3Error>)
        ensures
            final(self).tags == old(self).tags,
            final(self).kbps == old(self).kbps,
            final(self).format == old(self).format,
            (old(self).format is None || old(self).enc is None) ==> r matches Err(Mp3Error::NotStarted),
            (old(self).format matches Some(f) && old(self).enc is Some && mp3_rate(f.sample_rate)) ==> r is Ok,
            r is Ok ==> (final(self).enc matches Some(e) && mp3_queue(e).len() == 0),
            r matches Ok(out) ==> out@ == packets(final(self).queued@),
            r is Ok ==> (old(self).enc matches Some(e0) && mp3_queue(e0).is_prefix_of(final(self).queued@)),
            r is Ok ==> (old(self).enc matches Some(e0) && old(self).format matches Some(f)
                && final(self).enc matches Some(e1)
                && mp3_fed(e1) == mp3_fed(e0).push((samples@, f.channels as u16, f.sample_rate))
                && mp3_kbps(e1) == mp3_kbps(e0)),
    {
        let f = match self.format {
            Some(f) => f,
            None => {
                return Err(Mp3Error::NotStarted);
            }
        };
        match self.enc.take() {
            None => Err(Mp3Error::NotStarted),
            Some(mut e) => {
                let pushed = push_pcm(&mut e, samples, f.channels as u16, f.sample_rate);
                self.enc = Some(e);
                match pushed {
                    Err(x) => Err(Mp3Error::Encoder(x)),
                    Ok(()) => Ok(self.drain()),
                }
            }
        }
    }

    /// Flushes the encoder; gives its last packets.
    pub fn close(&mut self) -> (out: Vec<u8>)
        ensures
            final(self).tags == old(self).tags,
            final(self).kbps == old(self).kbps,
            final(self).format == old(self).format,
            old(self).enc is None ==> (out@ == Seq::<u8>::empty() && final(self).enc is None),
            old(self).enc is Some ==> (final(self).enc matches Some(e) && mp3_queue(e).len() == 0),
            old(self).enc is Some ==> out@ == packets(final(self).queued@),
            old(self).enc matches Some(e0) ==> (final(self).enc matches Some(e1)
                && mp3_fed(e1) == mp3_fed(e0) && mp3_kbps(e1) == mp3_kbps(e0)),
    {
        match self.enc.take() {
            None => Vec::new(),
            Some(mut e) => {
                finish_encoder(&mut e);
                self.enc = Some(e);
                self.drain()
            }
        }
    }
}

impl PcmSink for Mp3Writer {
    open spec fn ready(&self) -> bool {
        true
    }

    fn start(&mut self, format: PcmFormat) -> (r: Result<Vec<u8>, String>)
        ensures
            r matches Ok(head) && head@ == match old(self).tags {
                Some(t) => id3v2_spec(t),
                None => Seq::<u8>::empty(),
            },
            final(self).format == Some(format),
            final(self).tags == old(self).tags,
            final(self).kbps == old(self).kbps,
            final(self).enc matches Some(e) && mp3_queue(e).len() == 0 && mp3_fed(e).len() == 0
                && mp3_kbps(e) == old(self).kbps,
    {
        Ok(Mp3Writer::header(self, format))
    }

    fn write(&mut self, samples: &[i16]) -> (r: Result<Vec<u8>, String>)
        ensures
            final(self).tags == old(self).tags,
            final(self).kbps == old(self).kbps,
            final(self).format == old(self).format,
            (old(self).format is None || old(self).enc is None) ==> (r matches Err(m) && m@ == "MP3 sin iniciar"@),
            (old(self).format matches Some(f) && old(self).enc is Some && mp3_rate(f.sample_rate)) ==> r is Ok,
            r matches Ok(out) ==> out@ == packets(final(self).queued@),
            r is Ok ==> (old(self).enc matches Some(e0) && mp3_queue(e0).is_prefix_of(final(self).queued@)),
            r is Ok ==> (final(self).enc matches Some(e) && mp3_queue(e).len() == 0),
            r is Ok ==> (old(self).enc matches Some(e0) && old(self).format matches Some(f)
                && final(self).enc matches Some(e1)
                && mp3_fed(e1) == mp3_fed(e0).push((samples@, f.channels as u16, f.sample_rate))
                && mp3_kbps(e1) == mp3_kbps(e0)),
    {
        match Mp3Writer::encode(self, samples) {
            Ok(v) => Ok(v),
            Err(e) => Err(e.message()),
        }
    }

    fn finish(&mut self) -> (r: Result<SinkEnd, String>)
        ensures
            final(self).tags == old(self).tags,
            final(self).kbps == old(self).kbps,
            final(self).format == old(self).format,
            r matches Ok(end) && end.patches@.len() == 0 && (old(self).enc is None ==> end.tail@ == Seq::<u8>::empty()),
            old(self).enc is None ==> final(self).enc is None,
            old(self).enc is Some ==> (final(self).enc matches Some(e) && mp3_queue(e).len() == 0),
            old(self).enc is Some ==> (r matches Ok(end) && end.tail@ == packets(final(self).queued@)),
            old(self).enc matches Some(e0) ==> (final(self).enc matches Some(e1)
                && mp3_fed(e1) == mp3_fed(e0) && mp3_kbps(e1) == mp3_kbps(e0)),
    {
        let tail = Mp3Writer::close(self);
        Ok(SinkEnd { tail, patches: Vec::new() })
    }
}

} // verus!
